//! The slab: a fixed number of equal blocks of bytes, handed out by number and
//! counted by reference.

use crate::kv::BlockId;
use vstd::prelude::*;

verus! {

/// Why a block cannot be read.
#[derive(Debug, Clone, Copy, PartialEq, Eq, Structural)]
pub enum BlockError {
    /// Nothing has been written to the block since it was handed out.
    NotCommitted,
}

/// What the slab is: its measures, and for each block its reference count,
/// whether it has been written, and its bytes.
#[verifier::ext_equal]
pub struct SlabView {
    pub stride: usize,
    pub capacity: usize,
    pub free: Seq<BlockId>,
    pub rc: Seq<u32>,
    pub committed: Seq<bool>,
    pub blocks: Seq<Seq<u8>>,
}

impl SlabView {
    /// A slab of `capacity` free blocks of `b * stride` zero bytes.
    pub open spec fn fresh(b: nat, capacity: usize, stride: usize) -> SlabView {
        SlabView {
            stride,
            capacity,
            free: Seq::new(capacity as nat, |i: int| BlockId(i as usize)),
            rc: Seq::new(capacity as nat, |i: int| 0u32),
            committed: Seq::new(capacity as nat, |i: int| false),
            blocks: Seq::new(capacity as nat, |i: int| Seq::new(b * stride as nat, |k: int| 0u8)),
        }
    }

    /// Memory can hold a slab of `capacity` blocks of `b` tokens: neither its data
    /// nor its list of free blocks is longer than an allocation can be.
    pub open spec fn fits_memory(b: nat, capacity: usize, stride: usize) -> bool {
        &&& capacity * b <= usize::MAX
        &&& capacity * b * stride <= isize::MAX
        &&& capacity * 8 <= isize::MAX
    }

    /// The slab is well formed for blocks of `b` tokens.
    pub open spec fn wf(self, b: nat) -> bool {
        &&& self.rc.len() == self.capacity
        &&& self.committed.len() == self.capacity
        &&& self.blocks.len() == self.capacity
        &&& self.capacity > 0 ==> b * self.stride <= usize::MAX
        &&& forall|i: int|
            #![trigger self.blocks[i]]
            0 <= i < self.capacity ==> self.blocks[i].len() == b * self.stride
        &&& forall|j: int|
            #![trigger self.free[j]]
            0 <= j < self.free.len() ==> self.free[j].0 < self.capacity
    }

    /// `id` is the number of a block.
    pub open spec fn has(self, id: BlockId) -> bool {
        id.0 < self.capacity
    }

    /// The block that is handed out next.
    pub open spec fn next(self) -> Option<BlockId> {
        if self.free.len() > 0 {
            Some(self.free.last())
        } else {
            None
        }
    }

    /// The slab after a block is handed out, if there is one.
    pub open spec fn allocated(self) -> SlabView {
        if self.free.len() > 0 {
            SlabView {
                free: self.free.drop_last(),
                rc: self.rc.update(self.free.last().0 as int, 1),
                ..self
            }
        } else {
            self
        }
    }

    /// The slab with `id` referenced once more; the counter starts over at zero.
    pub open spec fn incref(self, id: BlockId) -> SlabView {
        let n = self.rc[id.0 as int];
        SlabView {
            rc: self.rc.update(
                id.0 as int,
                if n == u32::MAX {
                    0
                } else {
                    (n + 1) as u32
                },
            ),
            ..self
        }
    }

    /// The slab with `id` referenced once less. A block that loses its last
    /// reference is free again and holds nothing to read.
    pub open spec fn decref(self, id: BlockId) -> SlabView {
        let i = id.0 as int;
        let n = self.rc[i];
        SlabView {
            rc: self.rc.update(
                i,
                if n == 0 {
                    u32::MAX
                } else {
                    (n - 1) as u32
                },
            ),
            committed: if n == 1 {
                self.committed.update(i, false)
            } else {
                self.committed
            },
            free: if n == 1 {
                self.free.push(id)
            } else {
                self.free
            },
            ..self
        }
    }

    /// The slab after `bytes` are written to `id`.
    pub open spec fn commit(self, id: BlockId, bytes: Seq<u8>) -> SlabView {
        SlabView {
            blocks: self.blocks.update(id.0 as int, bytes),
            committed: self.committed.update(id.0 as int, true),
            ..self
        }
    }

    /// The slab with each of `ids` referenced once more.
    pub open spec fn incref_all(self, ids: Seq<BlockId>) -> SlabView
        decreases ids.len(),
    {
        if ids.len() == 0 {
            self
        } else {
            self.incref_all(ids.drop_last()).incref(ids.last())
        }
    }

    /// The slab with each of `ids` referenced once less, from the first to the
    /// last.
    pub open spec fn decref_all(self, ids: Seq<BlockId>) -> SlabView
        decreases ids.len(),
    {
        if ids.len() == 0 {
            self
        } else {
            self.decref_all(ids.drop_last()).decref(ids.last())
        }
    }

    /// What reading `id` gives.
    pub open spec fn read(self, id: BlockId) -> Result<Seq<u8>, BlockError> {
        if self.committed[id.0 as int] {
            Ok(self.blocks[id.0 as int])
        } else {
            Err(BlockError::NotCommitted)
        }
    }

    /// The free blocks are listed once, are exactly the ones without a reference,
    /// and hold nothing to read.
    pub open spec fn sound(self) -> bool {
        &&& self.free.no_duplicates()
        &&& forall|i: usize|
            #![trigger self.rc[i as int]]
            i < self.capacity ==> (self.rc[i as int] == 0 <==> self.free.contains(BlockId(i)))
        &&& forall|i: int|
            #![trigger self.committed[i]]
            0 <= i < self.capacity && self.rc[i] == 0 ==> !self.committed[i]
    }
}

/// A slab of blocks for `B` tokens of `element_stride` bytes each.
pub struct BlockSlab<const B: usize> {
    data: Vec<u8>,
    element_stride: usize,
    capacity: usize,
    free_list: Vec<BlockId>,
    ref_counts: Vec<u32>,
    committed: Vec<bool>,
}

impl<const B: usize> View for BlockSlab<B> {
    type V = SlabView;

    closed spec fn view(&self) -> SlabView {
        SlabView {
            stride: self.element_stride,
            capacity: self.capacity,
            free: self.free_list@,
            rc: self.ref_counts@,
            committed: self.committed@,
            blocks: Seq::new(
                self.capacity as nat,
                |i: int| chunk(self.data@, B * self.element_stride, i),
            ),
        }
    }
}

/// Run `i` of `width` bytes of `data`.
spec fn chunk(data: Seq<u8>, width: int, i: int) -> Seq<u8> {
    data.subrange(i * width, i * width + width)
}

/// Runs of equal width lie within the data, one after the other.
proof fn lemma_chunks(width: int, n: int, i: int, j: int)
    requires
        0 <= width,
        0 <= i < j <= n,
    ensures
        0 <= i * width,
        i * width + width <= j * width,
        j * width <= n * width,
{
    assert(0 <= i * width) by (nonlinear_arith)
        requires
            0 <= i,
            0 <= width,
    ;
    assert(i * width + width <= j * width) by (nonlinear_arith)
        requires
            i + 1 <= j,
            0 <= width,
    ;
    assert(j * width <= n * width) by (nonlinear_arith)
        requires
            j <= n,
            0 <= width,
    ;
}

impl<const B: usize> BlockSlab<B> {
    /// The bytes of all blocks are there.
    pub closed spec fn data_wf(&self) -> bool {
        self.data@.len() == self.capacity * (B * self.element_stride)
    }

    /// The slab is well formed.
    pub open spec fn wf(&self) -> bool {
        self@.wf(B as nat) && self.data_wf()
    }

    /// The number of blocks.
    pub fn capacity(&self) -> (capacity: usize)
        ensures
            capacity == self@.capacity,
    {
        self.capacity
    }

    /// The number of bytes per token.
    pub fn element_stride(&self) -> (stride: usize)
        ensures
            stride == self@.stride,
    {
        self.element_stride
    }

    /// How often `id` is referenced.
    pub fn references(&self, id: BlockId) -> (n: u32)
        requires
            self.wf(),
            self@.has(id),
        ensures
            n == self@.rc[id.0 as int],
    {
        self.ref_counts[id.0]
    }

    /// The number of bytes of a slab of `capacity` blocks, if memory can hold one.
    pub fn size_bytes(capacity: usize, element_stride: usize) -> (size: Option<usize>)
        ensures
            size == if SlabView::fits_memory(B as nat, capacity, element_stride) {
                Some((capacity * B * element_stride) as usize)
            } else {
                None
            },
    {
        let limit: usize = isize::MAX as usize;
        match capacity.checked_mul(8) {
            Some(list) => if list > limit {
                return None;
            },
            None => {
                return None;
            },
        }
        let tokens: usize = match capacity.checked_mul(B) {
            Some(tokens) => tokens,
            None => {
                return None;
            },
        };
        match tokens.checked_mul(element_stride) {
            Some(size) => if size <= limit {
                Some(size)
            } else {
                None
            },
            None => None,
        }
    }

    /// A slab of `capacity` free blocks on the heap.
    pub fn new_heap(capacity: usize, element_stride: usize) -> (slab: Self)
        requires
            SlabView::fits_memory(B as nat, capacity, element_stride),
        ensures
            slab.wf(),
            slab@ == SlabView::fresh(B as nat, capacity, element_stride),
            slab@.sound(),
    {
        let ghost width: int = B * element_stride;
        assert(capacity * B * element_stride == capacity * width) by (nonlinear_arith)
            requires
                width == B * element_stride,
        ;
        assert(0 <= width) by (nonlinear_arith)
            requires
                width == B * element_stride,
        ;
        let size: usize = capacity * B * element_stride;
        let data: Vec<u8> = vec![0u8; size];
        let mut free_list: Vec<BlockId> = Vec::new();
        let mut i: usize = 0;
        while i < capacity
            invariant
                i <= capacity,
                free_list@ == Seq::new(i as nat, |k: int| BlockId(k as usize)),
            decreases capacity - i,
        {
            free_list.push(BlockId(i));
            i = i + 1;
            assert(free_list@ =~= Seq::new(i as nat, |k: int| BlockId(k as usize)));
        }
        let ref_counts: Vec<u32> = vec![0u32; capacity];
        let committed: Vec<bool> = vec![false; capacity];
        let slab = BlockSlab {
            data,
            element_stride,
            capacity,
            free_list,
            ref_counts,
            committed,
        };
        proof {
            let fresh = SlabView::fresh(B as nat, capacity, element_stride);
            assert forall|k: int| 0 <= k < capacity implies slab@.blocks[k]
                =~= #[trigger] fresh.blocks[k] by {
                lemma_chunks(width, capacity as int, k, k + 1);
                assert(slab@.blocks[k] =~= chunk(slab.data@, width, k));
            }
            assert(slab@.blocks =~= fresh.blocks);
            assert(slab@ =~= fresh);
            if capacity > 0 {
                assert(width <= capacity * width) by (nonlinear_arith)
                    requires
                        0 < capacity,
                        0 <= width,
                ;
            }
            assert forall|k: usize| k < capacity implies (#[trigger] slab@.rc[k as int] == 0
                <==> slab@.free.contains(BlockId(k))) by {
                assert(slab@.free[k as int] == BlockId(k));
            }
        }
        slab
    }

    /// Hands a free block out, referenced once.
    pub fn alloc_block(&mut self) -> (id: Option<BlockId>)
        requires
            old(self).wf(),
        ensures
            final(self).wf(),
            final(self)@ == old(self)@.allocated(),
            id == old(self)@.next(),
            id matches Some(i) ==> old(self)@.has(i),
    {
        match self.free_list.pop() {
            Some(id) => {
                assert(old(self)@.free[old(self)@.free.len() - 1] == id);
                self.ref_counts[id.0] = 1;
                assert(self@ =~= old(self)@.allocated());
                Some(id)
            },
            None => {
                assert(self@ =~= old(self)@);
                None
            },
        }
    }

    /// References `id` once more.
    pub fn incref(&mut self, id: BlockId)
        requires
            old(self).wf(),
            old(self)@.has(id),
        ensures
            final(self).wf(),
            final(self)@ == old(self)@.incref(id),
    {
        let n: u32 = self.ref_counts[id.0];
        self.ref_counts[id.0] = n.wrapping_add(1);
        assert(self@ =~= old(self)@.incref(id));
    }

    /// References `id` once less, and frees it with its last reference.
    pub fn decref(&mut self, id: BlockId)
        requires
            old(self).wf(),
            old(self)@.has(id),
        ensures
            final(self).wf(),
            final(self)@ == old(self)@.decref(id),
    {
        let n: u32 = self.ref_counts[id.0];
        self.ref_counts[id.0] = n.wrapping_sub(1);
        if n == 1 {
            self.committed[id.0] = false;
            self.free_list.push(id);
        }
        assert(self@ =~= old(self)@.decref(id));
    }

    /// The number of free blocks.
    pub fn free_count(&self) -> (n: usize)
        ensures
            n == self@.free.len(),
    {
        self.free_list.len()
    }

    /// Writes the first `B * element_stride` bytes of `src` to block `id`, which
    /// can be read from then on.
    pub fn commit_block(&mut self, id: BlockId, src: &[u8])
        requires
            old(self).wf(),
            old(self)@.has(id),
            src@.len() >= B * old(self)@.stride,
        ensures
            final(self).wf(),
            final(self)@ == old(self)@.commit(id, src@.take(B * old(self)@.stride)),
    {
        let ghost start = self@;
        let width: usize = B * self.element_stride;
        let capacity: usize = self.capacity;
        let len: usize = self.data.len();
        proof {
            lemma_chunks(width as int, capacity as int, id.0 as int, id.0 + 1);
        }
        let base: usize = id.0 * width;
        let mut k: usize = 0;
        while k < width
            invariant
                k <= width,
                width <= src@.len(),
                base + width <= len,
                self.data@.len() == len,
                forall|m: int| 0 <= m < k ==> self.data@[base + m] == #[trigger] src@[m],
                forall|m: int|
                    0 <= m < len && !(base <= m < base + width) ==> #[trigger] self.data@[m]
                        == old(self).data@[m],
                len == old(self).data@.len(),
                self.element_stride == old(self).element_stride,
                self.capacity == old(self).capacity,
                self.free_list == old(self).free_list,
                self.ref_counts == old(self).ref_counts,
                self.committed == old(self).committed,
            decreases width - k,
        {
            self.data[base + k] = src[k];
            k = k + 1;
        }
        self.committed[id.0] = true;
        proof {
            let next = start.commit(id, src@.take(width as int));
            assert forall|i: int| 0 <= i < capacity implies self@.blocks[i]
                =~= #[trigger] next.blocks[i] by {
                lemma_chunks(width as int, capacity as int, i, i + 1);
                assert(self@.blocks[i] == chunk(self.data@, width as int, i));
                assert(start.blocks[i] == chunk(old(self).data@, width as int, i));
                if i == id.0 {
                    assert forall|m: int| 0 <= m < width implies #[trigger] self@.blocks[i][m]
                        == src@.take(width as int)[m] by {
                        assert(self.data@[base + m] == src@[m]);
                    }
                    assert(self@.blocks[i] =~= src@.take(width as int));
                } else {
                    if i < id.0 {
                        lemma_chunks(width as int, capacity as int, i, id.0 as int);
                    } else {
                        lemma_chunks(width as int, capacity as int, id.0 as int, i);
                    }
                    assert(self@.blocks[i] =~= start.blocks[i]);
                }
            }
            assert(self@.blocks =~= next.blocks);
            assert(self@ =~= next);
        }
    }

    /// The bytes of block `id`, if it has been written since it was handed out.
    pub fn block_ptr(&self, id: BlockId) -> (bytes: Result<&[u8], BlockError>)
        requires
            self.wf(),
            self@.has(id),
        ensures
            match bytes {
                Ok(b) => self@.read(id) == Ok::<Seq<u8>, BlockError>(b@),
                Err(e) => self@.read(id) == Err::<Seq<u8>, BlockError>(e),
            },
    {
        if !self.committed[id.0] {
            return Err(BlockError::NotCommitted);
        }
        let width: usize = B * self.element_stride;
        let capacity: usize = self.capacity;
        let len: usize = self.data.len();
        proof {
            lemma_chunks(width as int, capacity as int, id.0 as int, id.0 + 1);
            assert(self@.blocks[id.0 as int] == chunk(self.data@, width as int, id.0 as int));
        }
        let base: usize = id.0 * width;
        Ok(vstd::slice::slice_subrange(self.data.as_slice(), base, base + width))
    }

    /// References each of `ids` once more.
    pub fn incref_all(&mut self, ids: &[BlockId])
        requires
            old(self).wf(),
            forall|j: int| 0 <= j < ids@.len() ==> old(self)@.has(#[trigger] ids@[j]),
        ensures
            final(self).wf(),
            final(self)@ == old(self)@.incref_all(ids@),
            final(self)@.capacity == old(self)@.capacity,
            final(self)@.stride == old(self)@.stride,
    {
        let mut i: usize = 0;
        while i < ids.len()
            invariant
                i <= ids.len(),
                self.wf(),
                self@.capacity == old(self)@.capacity,
                self@.stride == old(self)@.stride,
                forall|j: int| 0 <= j < ids@.len() ==> old(self)@.has(#[trigger] ids@[j]),
                self@ == old(self)@.incref_all(ids@.take(i as int)),
            decreases ids.len() - i,
        {
            self.incref(ids[i]);
            i = i + 1;
            assert(ids@.take(i as int).drop_last() =~= ids@.take(i - 1));
        }
        assert(ids@.take(i as int) =~= ids@);
    }

    /// References each of `ids` once less, from the first to the last.
    pub fn decref_all(&mut self, ids: &[BlockId])
        requires
            old(self).wf(),
            forall|j: int| 0 <= j < ids@.len() ==> old(self)@.has(#[trigger] ids@[j]),
        ensures
            final(self).wf(),
            final(self)@ == old(self)@.decref_all(ids@),
            final(self)@.capacity == old(self)@.capacity,
            final(self)@.stride == old(self)@.stride,
    {
        let mut i: usize = 0;
        while i < ids.len()
            invariant
                i <= ids.len(),
                self.wf(),
                self@.capacity == old(self)@.capacity,
                self@.stride == old(self)@.stride,
                forall|j: int| 0 <= j < ids@.len() ==> old(self)@.has(#[trigger] ids@[j]),
                self@ == old(self)@.decref_all(ids@.take(i as int)),
            decreases ids.len() - i,
        {
            self.decref(ids[i]);
            i = i + 1;
            assert(ids@.take(i as int).drop_last() =~= ids@.take(i - 1));
        }
        assert(ids@.take(i as int) =~= ids@);
    }
}

/// What was written is read back, and no other block is affected.
pub proof fn law_commit_then_read(slab: SlabView, b: nat, id: BlockId, bytes: Seq<u8>)
    requires
        slab.wf(b),
        slab.has(id),
    ensures
        slab.commit(id, bytes).read(id) == Ok::<Seq<u8>, BlockError>(bytes),
        forall|other: BlockId|
            slab.has(other) && other != id ==> #[trigger] slab.commit(id, bytes).read(other)
                == slab.read(other),
{
}

/// A block is handed out without a reader, without anything to read, and once:
/// it was free, and now it is not.
pub proof fn law_alloc(slab: SlabView, b: nat)
    requires
        slab.wf(b),
        slab.sound(),
        slab.free.len() > 0,
    ensures
        slab.allocated().sound(),
        slab.allocated().wf(b),
        slab.rc[slab.next()->Some_0.0 as int] == 0,
        slab.allocated().rc[slab.next()->Some_0.0 as int] == 1,
        slab.allocated().read(slab.next()->Some_0) == Err::<Seq<u8>, BlockError>(
            BlockError::NotCommitted,
        ),
        slab.allocated().free.len() == slab.free.len() - 1,
{
    let id = slab.free.last();
    let next = slab.allocated();
    assert(slab.free[slab.free.len() - 1] == id);
    assert(slab.free.contains(BlockId(id.0)));
    assert(slab.rc[id.0 as int] == 0);
    assert forall|i: usize| i < next.capacity implies (#[trigger] next.rc[i as int] == 0
        <==> next.free.contains(BlockId(i))) by {
        if i == id.0 {
            if next.free.contains(id) {
                let j = choose|j: int| 0 <= j < next.free.len() && next.free[j] == id;
                assert(slab.free[j] == id);
            }
        } else {
            assert(slab.rc[i as int] == next.rc[i as int]);
            if slab.free.contains(BlockId(i)) {
                let j = choose|j: int| 0 <= j < slab.free.len() && slab.free[j] == BlockId(i);
                assert(next.free[j] == BlockId(i));
            }
            if next.free.contains(BlockId(i)) {
                let j = choose|j: int| 0 <= j < next.free.len() && next.free[j] == BlockId(i);
                assert(slab.free[j] == BlockId(i));
            }
        }
    }
    assert forall|i: int| 0 <= i < next.capacity && next.rc[i] == 0 implies
        !#[trigger] next.committed[i] by {
        assert(slab.rc[i] == next.rc[i]);
        assert(!slab.committed[i]);
    }
    assert(!slab.committed[id.0 as int]);
}

/// A referenced block that loses a reference stays as it is, or is free and
/// unreadable if that was the last one; the slab stays sound either way.
pub proof fn law_decref(slab: SlabView, b: nat, id: BlockId)
    requires
        slab.wf(b),
        slab.sound(),
        slab.has(id),
        slab.rc[id.0 as int] > 0,
    ensures
        slab.decref(id).sound(),
        slab.decref(id).wf(b),
        slab.rc[id.0 as int] > 1 ==> slab.decref(id).free == slab.free && slab.decref(id).read(id)
            == slab.read(id),
        slab.rc[id.0 as int] == 1 ==> slab.decref(id).free.len() == slab.free.len() + 1
            && slab.decref(id).read(id) == Err::<Seq<u8>, BlockError>(BlockError::NotCommitted),
{
    let next = slab.decref(id);
    assert(!slab.free.contains(BlockId(id.0)));
    assert forall|i: usize| i < next.capacity implies (#[trigger] next.rc[i as int] == 0
        <==> next.free.contains(BlockId(i))) by {
        assert(slab.rc[i as int] == 0 <==> slab.free.contains(BlockId(i)));
        if slab.rc[id.0 as int] == 1 {
            if i == id.0 {
                assert(next.free[slab.free.len() as int] == id);
            } else {
                if slab.free.contains(BlockId(i)) {
                    let j = choose|j: int| 0 <= j < slab.free.len() && slab.free[j] == BlockId(i);
                    assert(next.free[j] == BlockId(i));
                }
                if next.free.contains(BlockId(i)) {
                    let j = choose|j: int| 0 <= j < next.free.len() && next.free[j] == BlockId(i);
                    assert(slab.free[j] == BlockId(i));
                }
            }
        }
    }
    assert forall|i: int| 0 <= i < next.capacity && next.rc[i] == 0 implies
        !#[trigger] next.committed[i] by {
        if i != id.0 {
            assert(slab.rc[i] == next.rc[i]);
            assert(!slab.committed[i]);
        }
    }
}

/// Giving a block back at once leaves the slab as it was.
pub proof fn law_alloc_then_decref(slab: SlabView, b: nat)
    requires
        slab.wf(b),
        slab.sound(),
        slab.free.len() > 0,
    ensures
        slab.allocated().decref(slab.next()->Some_0) == slab,
{
    let id = slab.free.last();
    assert(slab.free[slab.free.len() - 1] == id);
    assert(slab.free.contains(BlockId(id.0)));
    assert(slab.rc[id.0 as int] == 0);
    assert(!slab.committed[id.0 as int]);
    assert(slab.allocated().decref(id) =~= slab);
}

/// One more reference and one less leave the slab as it was, and sound in
/// between; so does writing to a referenced block.
pub proof fn law_incref_then_decref(slab: SlabView, b: nat, id: BlockId, bytes: Seq<u8>)
    requires
        slab.wf(b),
        slab.sound(),
        slab.has(id),
        0 < slab.rc[id.0 as int] < u32::MAX,
    ensures
        slab.incref(id).sound(),
        slab.incref(id).decref(id) == slab,
        slab.commit(id, bytes).sound(),
{
    assert(slab.incref(id).decref(id) =~= slab);
    let more = slab.incref(id);
    assert forall|i: usize| i < more.capacity implies (#[trigger] more.rc[i as int] == 0
        <==> more.free.contains(BlockId(i))) by {
        assert(slab.rc[i as int] == 0 <==> slab.free.contains(BlockId(i)));
    }
    assert forall|i: int| 0 <= i < more.capacity && more.rc[i] == 0 implies
        !#[trigger] more.committed[i] by {
        assert(!slab.committed[i]);
    }
    let written = slab.commit(id, bytes);
    assert forall|i: int| 0 <= i < written.capacity && written.rc[i] == 0 implies
        !#[trigger] written.committed[i] by {
        assert(!slab.committed[i]);
    }
}

/// A new slab: all of its blocks are free, listed in the order of their numbers, without
/// references and with nothing to read, and each has room for `b` tokens of `stride`
/// bytes. The one with the highest number is handed out first.
pub proof fn law_fresh(b: nat, capacity: usize, stride: usize, i: int)
    requires
        0 <= i < capacity,
    ensures
        ({
            let slab = SlabView::fresh(b, capacity, stride);
            &&& slab.capacity == capacity
            &&& slab.stride == stride
            &&& slab.free.len() == capacity
            &&& slab.free[i] == BlockId(i as usize)
            &&& slab.next() == Some(BlockId((capacity - 1) as usize))
            &&& slab.rc.len() == capacity && slab.rc[i] == 0
            &&& slab.committed.len() == capacity && !slab.committed[i]
            &&& slab.blocks.len() == capacity && slab.blocks[i].len() == b * stride
        }),
{
}

/// Handing a block out: there is one to be had exactly while a block is free. It is one
/// of the free blocks, which are then one fewer; it is referenced once, and nothing else
/// changes.
pub proof fn law_alloc_outcome(slab: SlabView, b: nat, i: int)
    requires
        slab.wf(b),
        0 <= i < slab.capacity,
    ensures
        ({
            let next = slab.allocated();
            &&& next.stride == slab.stride
            &&& next.capacity == slab.capacity
            &&& next.committed == slab.committed
            &&& next.blocks == slab.blocks
            &&& match slab.next() {
                None => slab.free.len() == 0 && next == slab,
                Some(id) => {
                    &&& next.free.push(id) == slab.free
                    &&& next.rc[i] == if i == id.0 {
                        1
                    } else {
                        slab.rc[i]
                    }
                },
            }
        }),
{
    if slab.free.len() > 0 {
        assert(slab.free[slab.free.len() - 1].0 < slab.capacity);
        assert(slab.free.drop_last().push(slab.free.last()) =~= slab.free);
    }
}

/// One more reference: the count of the block goes up by one, from the highest count to
/// zero, and nothing else changes.
pub proof fn law_incref_outcome(slab: SlabView, b: nat, id: BlockId, i: int)
    requires
        slab.wf(b),
        id.0 < slab.capacity,
        0 <= i < slab.capacity,
    ensures
        ({
            let next = slab.incref(id);
            &&& next == (SlabView { rc: next.rc, ..slab })
            &&& next.rc.len() == slab.rc.len()
            &&& next.rc[i] == if i != id.0 {
                slab.rc[i] as int
            } else if slab.rc[i] < u32::MAX {
                slab.rc[i] + 1
            } else {
                0
            }
        }),
{
}

/// One reference less: the count of the block goes down by one, from zero to the highest
/// count. With its last reference it is free, is the next to be handed out, and holds
/// nothing to read. Nothing else changes.
pub proof fn law_decref_outcome(slab: SlabView, b: nat, id: BlockId, i: int)
    requires
        slab.wf(b),
        id.0 < slab.capacity,
        0 <= i < slab.capacity,
    ensures
        ({
            let next = slab.decref(id);
            let last = slab.rc[id.0 as int] == 1;
            &&& next.stride == slab.stride
            &&& next.capacity == slab.capacity
            &&& next.blocks == slab.blocks
            &&& next.rc.len() == slab.rc.len()
            &&& next.rc[i] == if i != id.0 {
                slab.rc[i] as int
            } else if slab.rc[i] > 0 {
                slab.rc[i] - 1
            } else {
                u32::MAX as int
            }
            &&& next.committed.len() == slab.committed.len()
            &&& next.committed[i] == (slab.committed[i] && !(last && i == id.0))
            &&& !last ==> next.free == slab.free
            &&& last ==> next.free == slab.free.push(id) && next.next() == Some(id)
        }),
{
}

/// Writing a block: it holds exactly the bytes that were written and can be read, and
/// nothing else changes. What is read of a block are its bytes, if it was written.
pub proof fn law_commit_outcome(slab: SlabView, b: nat, id: BlockId, bytes: Seq<u8>, i: usize)
    requires
        slab.wf(b),
        id.0 < slab.capacity,
        i < slab.capacity,
    ensures
        ({
            let next = slab.commit(id, bytes);
            &&& next == (SlabView { committed: next.committed, blocks: next.blocks, ..slab })
            &&& next.committed[i as int] == (slab.committed[i as int] || i == id.0)
            &&& next.blocks[i as int] == if i == id.0 {
                bytes
            } else {
                slab.blocks[i as int]
            }
            &&& next.committed.len() == slab.committed.len()
            &&& next.blocks.len() == slab.blocks.len()
        }),
        slab.committed[i as int] ==> slab.read(BlockId(i)) == Ok::<Seq<u8>, BlockError>(
            slab.blocks[i as int],
        ),
        !slab.committed[i as int] ==> slab.read(BlockId(i)) == Err::<Seq<u8>, BlockError>(
            BlockError::NotCommitted,
        ),
{
}

/// References to several blocks: the count of each block goes up, or down, by the number
/// of times it is listed, and no bytes change.
pub proof fn law_count_all(slab: SlabView, b: nat, ids: Seq<BlockId>, i: usize)
    requires
        slab.wf(b),
        i < slab.capacity,
        forall|j: int| 0 <= j < ids.len() ==> (#[trigger] ids[j]).0 < slab.capacity,
    ensures
        slab.incref_all(ids).blocks == slab.blocks,
        slab.decref_all(ids).blocks == slab.blocks,
        slab.incref_all(ids).committed == slab.committed,
        slab.incref_all(ids).free == slab.free,
        slab.incref_all(ids).rc.len() == slab.rc.len(),
        slab.decref_all(ids).rc.len() == slab.rc.len(),
        ({
            let times = ids.filter(|id: BlockId| id == BlockId(i)).len();
            &&& slab.rc[i as int] + times <= u32::MAX ==> slab.incref_all(ids).rc[i as int]
                == slab.rc[i as int] + times
            &&& times <= slab.rc[i as int] ==> slab.decref_all(ids).rc[i as int]
                == slab.rc[i as int] - times
        }),
    decreases ids.len(),
{
    let named = |id: BlockId| id == BlockId(i);
    reveal(Seq::filter);
    if ids.len() > 0 {
        let front = ids.drop_last();
        assert forall|j: int| 0 <= j < front.len() implies (#[trigger] front[j]).0
            < slab.capacity by {
            assert(front[j] == ids[j]);
        }
        law_count_all(slab, b, front, i);
        assert(ids[ids.len() - 1].0 < slab.capacity);
        assert(BlockId(ids.last().0) == ids.last());
        assert(ids.filter(named).len() == front.filter(named).len() + if named(ids.last()) {
            1nat
        } else {
            0nat
        });
    }
}

/// Memory can hold a slab exactly if its tokens can be counted, and neither its bytes nor
/// the numbers of its blocks, of eight bytes each, are more than an allocation can hold.
pub proof fn law_fits_memory(b: nat, capacity: usize, stride: usize)
    ensures
        SlabView::fits_memory(b, capacity, stride) <==> capacity * b <= usize::MAX && capacity * b
            * stride <= isize::MAX && capacity * 8 <= isize::MAX,
{
}

} // verus!
