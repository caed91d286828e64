use vstd::prelude::*;
use std::collections::HashMap;
use vstd::arithmetic::power2::{pow2, lemma2_to64, lemma_pow2_unfold};

verus! {

broadcast use vstd::std_specs::hash::group_hash_axioms;

/// Requests above this many `u32` words are never pooled.
pub const LARGE_ALLOCATION: usize = 16 * 1024 * 1024;

/// The largest number of pooled blocks kept for a block size.
pub open spec fn max_blocks_spec(size: usize) -> usize {
    if size < 1024 {
        32
    } else if size < 1024 * 1024 {
        16
    } else {
        8
    }
}

/// Whether a bucket list holds a bucket for `size`.
pub open spec fn has_bucket(b: Seq<(usize, Seq<u64>)>, size: usize) -> bool {
    exists|i: int| 0 <= i < b.len() && #[trigger] b[i].0 == size
}

/// Whether a bucket list holds a non-empty bucket for exactly `size`.
pub open spec fn exact_nonempty(b: Seq<(usize, Seq<u64>)>, size: usize) -> bool {
    exists|i: int| 0 <= i < b.len() && #[trigger] b[i].0 == size && b[i].1.len() > 0
}

/// Whether bucket `i` is non-empty and its block size lies between `size` and
/// `size + size / 4`.
pub open spec fn fits(b: Seq<(usize, Seq<u64>)>, i: int, size: usize) -> bool {
    size <= b[i].0 <= size + size / 4 && b[i].1.len() > 0
}

/// Bucket `i` is the first bucket that fits `size`.
pub open spec fn first_fit(b: Seq<(usize, Seq<u64>)>, size: usize, i: int) -> bool {
    0 <= i < b.len() && fits(b, i, size) && forall|j: int| 0 <= j < i ==> !#[trigger] fits(b, j, size)
}

/// Whether some bucket fits `size`.
pub open spec fn any_fit(b: Seq<(usize, Seq<u64>)>, size: usize) -> bool {
    exists|i: int| 0 <= i < b.len() && #[trigger] fits(b, i, size)
}

/// Bucket `i` is the one a request for `size` blocks takes a pooled block from:
/// the non-empty bucket of exactly that size, or else, for a request that is not
/// large, the first bucket that fits it.
pub open spec fn reuse_bucket(b: Seq<(usize, Seq<u64>)>, size: usize, i: int) -> bool {
    0 <= i < b.len() && ((b[i].0 == size && b[i].1.len() > 0) || (!exact_nonempty(b, size)
        && size <= LARGE_ALLOCATION && first_fit(b, size, i)))
}

/// The bucket list with a bucket for `size` added at the end if it had none.
pub open spec fn with_bucket(b: Seq<(usize, Seq<u64>)>, size: usize) -> Seq<(usize, Seq<u64>)> {
    if has_bucket(b, size) {
        b
    } else {
        b.push((size, Seq::empty()))
    }
}

/// All pooled handles, bucket after bucket, each bucket in order.
pub open spec fn all_handles(b: Seq<(usize, Seq<u64>)>) -> Seq<u64>
    decreases b.len(),
{
    if b.len() == 0 {
        Seq::empty()
    } else {
        all_handles(b.drop_last()) + b.last().1
    }
}

/// The number of pooled blocks of each block size.
pub open spec fn block_counts(b: Seq<(usize, Seq<u64>)>) -> Map<usize, usize>
    decreases b.len(),
{
    if b.len() == 0 {
        Map::empty()
    } else {
        block_counts(b.drop_last()).insert(b.last().0, b.last().1.len() as usize)
    }
}

/// The bytes held by all pooled blocks.
pub open spec fn pooled_bytes(b: Seq<(usize, Seq<u64>)>) -> int
    decreases b.len(),
{
    if b.len() == 0 {
        0
    } else {
        pooled_bytes(b.drop_last()) + b.last().0 * 4 * b.last().1.len()
    }
}

proof fn lemma_pooled_bytes_nonneg(b: Seq<(usize, Seq<u64>)>)
    ensures
        pooled_bytes(b) >= 0,
    decreases b.len(),
{
    if b.len() > 0 {
        lemma_pooled_bytes_nonneg(b.drop_last());
        assert(b.last().0 * 4 * b.last().1.len() >= 0) by (nonlinear_arith);
    }
}

/// `a - b`, or zero where `b` exceeds `a`.
pub open spec fn saturating_sub_spec(a: usize, b: int) -> usize {
    if a >= b {
        (a - b) as usize
    } else {
        0
    }
}

/// The block sizes and block counts that a pool preallocates for traces of
/// `2^log_size` rows: none above `2^20` rows, else two blocks of the base size
/// `2^min(log_size, 10)`, two of twice it and one of four times it.
pub open spec fn preallocation_steps(log_size: u32) -> Seq<(usize, usize)> {
    if log_size > 20 {
        Seq::empty()
    } else {
        let base: usize = pow2((if log_size < 10 { log_size } else { 10 }) as nat) as usize;
        seq![(base, 2usize), ((2 * base) as usize, 2usize), ((4 * base) as usize, 1usize)]
    }
}

/// The outcome of a request for `size` words: the buckets `b` become `nb`.
pub open spec fn allocate_spec(b: Seq<(usize, Seq<u64>)>, size: usize, r: AllocDecision, nb: Seq<(usize, Seq<u64>)>) -> bool {
    match r {
        AllocDecision::Reuse(h) => exists|i: int|
            #[trigger] reuse_bucket(b, size, i) && h == b[i].1.last() && nb == b.update(i, (b[i].0, b[i].1.drop_last())),
        AllocDecision::AllocateUntracked => !exact_nonempty(b, size) && size > LARGE_ALLOCATION && nb == b,
        AllocDecision::AllocateTracked => !exact_nonempty(b, size) && size <= LARGE_ALLOCATION && !any_fit(b, size)
            && nb == b,
    }
}

/// The outcome of giving back block `ptr` of `size` words: the buckets `b` and
/// total `t` become `nb` and `nt`.
pub open spec fn deallocate_spec(
    b: Seq<(usize, Seq<u64>)>,
    t: usize,
    ptr: u64,
    size: usize,
    r: DeallocDecision,
    nb: Seq<(usize, Seq<u64>)>,
    nt: usize,
) -> bool {
    if ptr == 0 {
        r == DeallocDecision::Ignore && nb == b && nt == t
    } else if size > LARGE_ALLOCATION {
        r == DeallocDecision::Free && nb == b && nt == saturating_sub_spec(t, size * 4)
    } else {
        let b1 = with_bucket(b, size);
        exists|i: int|
            0 <= i < b1.len() && #[trigger] b1[i].0 == size && if b1[i].1.len() < max_blocks_spec(size) {
                &&& r == DeallocDecision::Keep
                &&& nb == b1.update(i, (size, b1[i].1.push(ptr)))
                &&& nt == t
            } else {
                &&& r == DeallocDecision::Free
                &&& nb == b1
                &&& nt == saturating_sub_spec(t, size * 4)
            }
    }
}

/// What to do with a request for a block.
#[derive(Clone, Copy, Debug, PartialEq, Eq, Structural)]
pub enum AllocDecision {
    /// Hand out this pooled block.
    Reuse(u64),
    /// Allocate a fresh device block; it is not counted in the pool's total.
    AllocateUntracked,
    /// Allocate a fresh device block and report it with `record_allocation`.
    AllocateTracked,
}

/// What to do with a returned block.
#[derive(Clone, Copy, Debug, PartialEq, Eq, Structural)]
pub enum DeallocDecision {
    /// The block is null: nothing to do.
    Ignore,
    /// The block was kept in the pool.
    Keep,
    /// Free the block on the device.
    Free,
}

/// A pool of device blocks of `u32` words, grouped by block size, with the
/// number of bytes the pool has allocated. Device blocks are named by their
/// addresses; the address 0 stands for a null block.
#[derive(Debug)]
pub struct CudaMemPool {
    device_id: usize,
    pool: Vec<(usize, Vec<u64>)>,
    total_allocated: usize,
}

/// Progress through the preallocation of a pool: the steps (block size and
/// block count) and the current step and attempt.
#[derive(Debug)]
pub struct PreallocationPlan {
    steps: Vec<(usize, usize)>,
    stage: usize,
    attempt: usize,
}

impl PreallocationPlan {
    /// The preallocation steps.
    pub closed spec fn steps(&self) -> Seq<(usize, usize)> {
        self.steps@
    }

    /// The current step.
    pub closed spec fn stage(&self) -> int {
        self.stage as int
    }

    /// The current attempt within the current step.
    pub closed spec fn attempt(&self) -> int {
        self.attempt as int
    }

    /// The plan's position is consistent.
    pub closed spec fn wf(&self) -> bool {
        &&& self.stage <= self.steps@.len()
        &&& self.stage < self.steps@.len() ==> self.attempt <= self.steps@[self.stage as int].1
        &&& self.stage == self.steps@.len() ==> self.attempt == 0
        &&& forall|k: int| 0 <= k < self.steps@.len() ==> (#[trigger] self.steps@[k]).0 <= LARGE_ALLOCATION
            && self.steps@[k].1 <= max_blocks_spec(self.steps@[k].0)
    }

    /// Whether all steps are done.
    pub fn is_done(&self) -> (r: bool)
        ensures
            r == (self.stage() >= self.steps().len()),
    {
        self.stage >= self.steps.len()
    }
}

impl CudaMemPool {
    /// The buckets of pooled blocks, in the order their sizes were first used.
    pub closed spec fn buckets(&self) -> Seq<(usize, Seq<u64>)> {
        self.pool@.map_values(|e: (usize, Vec<u64>)| (e.0, e.1@))
    }

    /// The number of bytes the pool counts as allocated.
    pub closed spec fn total(&self) -> usize {
        self.total_allocated
    }

    /// The device the pool serves.
    pub closed spec fn device(&self) -> usize {
        self.device_id
    }

    /// The pool invariant: one bucket per block size, no bucket for large
    /// blocks, and no null block pooled.
    pub open spec fn wf(&self) -> bool {
        let b = self.buckets();
        &&& forall|i: int, j: int| 0 <= i < j < b.len() ==> #[trigger] b[i].0 != #[trigger] b[j].0
        &&& forall|i: int| 0 <= i < b.len() ==> #[trigger] b[i].0 <= LARGE_ALLOCATION
        &&& forall|i: int, k: int| 0 <= i < b.len() && 0 <= k < b[i].1.len() ==> #[trigger] b[i].1[k] != 0
        &&& forall|i: int| 0 <= i < b.len() ==> (#[trigger] b[i]).1.len() <= max_blocks_spec(b[i].0)
    }

    /// The size of bucket `i`'s blocks as stored.
    proof fn lemma_view_index(&self, i: int)
        requires
            0 <= i < self.pool@.len(),
        ensures
            self.buckets()[i] == (self.pool@[i].0, self.pool@[i].1@),
            self.buckets().len() == self.pool@.len(),
    {
    }

    /// An empty pool for device `device_id`.
    pub fn new(device_id: usize) -> (r: Self)
        ensures
            r.wf(),
            r.buckets() == Seq::<(usize, Seq<u64>)>::empty(),
            r.total() == 0,
            r.device() == device_id,
    {
        let r = CudaMemPool { device_id, pool: Vec::new(), total_allocated: 0 };
        assert(r.buckets() =~= Seq::<(usize, Seq<u64>)>::empty());
        r
    }

    /// The number of bytes the pool counts as allocated.
    pub fn total_allocated(&self) -> (r: usize)
        ensures
            r == self.total(),
    {
        self.total_allocated
    }

    /// The device the pool serves.
    pub fn device_id(&self) -> (r: usize)
        ensures
            r == self.device(),
    {
        self.device_id
    }

    /// The index of the bucket for `size`, if there is one.
    fn find_bucket(&self, size: usize) -> (r: Option<usize>)
        requires
            self.wf(),
        ensures
            match r {
                Some(i) => i < self.buckets().len() && self.buckets()[i as int].0 == size,
                None => !has_bucket(self.buckets(), size),
            },
    {
        let mut i: usize = 0;
        while i < self.pool.len()
            invariant
                i <= self.pool@.len(),
                self.buckets().len() == self.pool@.len(),
                forall|j: int| 0 <= j < i ==> #[trigger] self.buckets()[j].0 != size,
            decreases self.pool@.len() - i,
        {
            proof {
                self.lemma_view_index(i as int);
            }
            if self.pool[i].0 == size {
                return Some(i);
            }
            i = i + 1;
        }
        None
    }

    /// Takes the last block of bucket `i`.
    fn pop_from(&mut self, i: usize) -> (h: u64)
        requires
            old(self).wf(),
            i < old(self).buckets().len(),
            old(self).buckets()[i as int].1.len() > 0,
        ensures
            final(self).wf(),
            h == old(self).buckets()[i as int].1.last(),
            final(self).buckets() == old(self).buckets().update(
                i as int,
                (old(self).buckets()[i as int].0, old(self).buckets()[i as int].1.drop_last()),
            ),
            final(self).total() == old(self).total(),
            final(self).device() == old(self).device(),
    {
        proof {
            old(self).lemma_view_index(i as int);
        }
        let mut entry = self.pool.remove(i);
        let h = entry.1.pop().unwrap();
        self.pool.insert(i, entry);
        assert(self.buckets() =~= old(self).buckets().update(
            i as int,
            (old(self).buckets()[i as int].0, old(self).buckets()[i as int].1.drop_last()),
        ));
        h
    }

    /// Adds block `h` at the end of bucket `i`.
    fn push_to(&mut self, i: usize, h: u64)
        requires
            old(self).wf(),
            i < old(self).buckets().len(),
            old(self).buckets()[i as int].1.len() < max_blocks_spec(old(self).buckets()[i as int].0),
            h != 0,
        ensures
            final(self).wf(),
            final(self).buckets() == old(self).buckets().update(
                i as int,
                (old(self).buckets()[i as int].0, old(self).buckets()[i as int].1.push(h)),
            ),
            final(self).total() == old(self).total(),
            final(self).device() == old(self).device(),
    {
        proof {
            old(self).lemma_view_index(i as int);
        }
        let mut entry = self.pool.remove(i);
        entry.1.push(h);
        self.pool.insert(i, entry);
        assert(self.buckets() =~= old(self).buckets().update(
            i as int,
            (old(self).buckets()[i as int].0, old(self).buckets()[i as int].1.push(h)),
        ));
    }

    /// The index of the bucket for `size`, adding an empty bucket at the end if
    /// there was none.
    fn bucket_entry(&mut self, size: usize) -> (r: usize)
        requires
            old(self).wf(),
            size <= LARGE_ALLOCATION,
        ensures
            final(self).wf(),
            final(self).buckets() == with_bucket(old(self).buckets(), size),
            r < final(self).buckets().len(),
            final(self).buckets()[r as int].0 == size,
            final(self).total() == old(self).total(),
            final(self).device() == old(self).device(),
    {
        match self.find_bucket(size) {
            Some(i) => {
                assert(has_bucket(self.buckets(), size));
                i
            },
            None => {
                let n = self.pool.len();
                self.pool.push((size, Vec::new()));
                assert(self.buckets() =~= old(self).buckets().push((size, Seq::empty())));
                n
            },
        }
    }

    /// Decides how to serve a request for a block of `size` words. A pooled block
    /// of exactly that size is preferred; a large request otherwise gets a fresh,
    /// uncounted block; any other request takes a block from the first bucket
    /// whose block size is at most a quarter above `size`, or else gets a fresh
    /// block.
    pub fn allocate(&mut self, size: usize) -> (r: AllocDecision)
        requires
            old(self).wf(),
        ensures
            final(self).wf(),
            final(self).total() == old(self).total(),
            final(self).device() == old(self).device(),
            allocate_spec(old(self).buckets(), size, r, final(self).buckets()),
    {
        let ghost b = self.buckets();
        match self.find_bucket(size) {
            Some(i) => {
                proof {
                    self.lemma_view_index(i as int);
                }
                if self.pool[i].1.len() > 0 {
                    assert(reuse_bucket(b, size, i as int));
                    let h = self.pop_from(i);
                    assert(reuse_bucket(old(self).buckets(), size, i as int) && h == old(self).buckets()[i as int].1.last()
                        && self.buckets() == old(self).buckets().update(
                        i as int,
                        (old(self).buckets()[i as int].0, old(self).buckets()[i as int].1.drop_last()),
                    ));
                    return AllocDecision::Reuse(h);
                }
                assert(!exact_nonempty(b, size)) by {
                    if exact_nonempty(b, size) {
                        let k = choose|k: int| 0 <= k < b.len() && #[trigger] b[k].0 == size && b[k].1.len() > 0;
                        assert(k == i);
                    }
                }
            },
            None => {
                assert(!exact_nonempty(b, size)) by {
                    if exact_nonempty(b, size) {
                        let k = choose|k: int| 0 <= k < b.len() && #[trigger] b[k].0 == size && b[k].1.len() > 0;
                        assert(has_bucket(b, size));
                    }
                }
            },
        }
        if size > LARGE_ALLOCATION {
            return AllocDecision::AllocateUntracked;
        }
        let max_acceptable_size = size + size / 4;
        let mut i: usize = 0;
        while i < self.pool.len()
            invariant
                i <= self.pool@.len(),
                self.wf(),
                self.buckets() == b,
                b == old(self).buckets(),
                self.buckets().len() == self.pool@.len(),
                self.total() == old(self).total(),
                self.device() == old(self).device(),
                max_acceptable_size == size + size / 4,
                !exact_nonempty(b, size),
                size <= LARGE_ALLOCATION,
                forall|j: int| 0 <= j < i ==> !#[trigger] fits(b, j, size),
            decreases self.pool@.len() - i,
        {
            proof {
                self.lemma_view_index(i as int);
            }
            let block_size = self.pool[i].0;
            if block_size >= size && block_size <= max_acceptable_size && self.pool[i].1.len() > 0 {
                assert(first_fit(b, size, i as int));
                assert(reuse_bucket(b, size, i as int));
                let h = self.pop_from(i);
                assert(reuse_bucket(old(self).buckets(), size, i as int) && h == old(self).buckets()[i as int].1.last()
                    && self.buckets() == old(self).buckets().update(
                    i as int,
                    (old(self).buckets()[i as int].0, old(self).buckets()[i as int].1.drop_last()),
                ));
                return AllocDecision::Reuse(h);
            }
            i = i + 1;
        }
        assert(!any_fit(b, size));
        AllocDecision::AllocateTracked
    }

    /// Counts a fresh block of `size` words that `allocate` asked for; a null
    /// block is not counted.
    pub fn record_allocation(&mut self, size: usize, ptr: u64)
        requires
            old(self).wf(),
            ptr != 0 ==> old(self).total() + size * 4 <= usize::MAX,
        ensures
            final(self).wf(),
            final(self).buckets() == old(self).buckets(),
            final(self).device() == old(self).device(),
            final(self).total() == if ptr != 0 { (old(self).total() + size * 4) as usize } else { old(self).total() },
    {
        if ptr != 0 {
            self.total_allocated = self.total_allocated + size * 4;
        }
        assert(self.pool@ == old(self).pool@);
        assert(self.buckets() == old(self).buckets());
        assert(self.wf());
    }

    /// Decides what happens to a block of `size` words given back to the pool.
    /// A null block is ignored; a large block is freed; any other block is kept
    /// in the bucket for its size (created if missing) while that bucket holds
    /// fewer than `max_blocks_spec(size)` blocks, and freed otherwise. The bytes
    /// of a freed block are taken off the total, down to zero.
    pub fn deallocate(&mut self, ptr: u64, size: usize) -> (r: DeallocDecision)
        requires
            old(self).wf(),
            ptr != 0 && size > LARGE_ALLOCATION ==> size * 4 <= usize::MAX,
        ensures
            final(self).wf(),
            final(self).device() == old(self).device(),
            deallocate_spec(old(self).buckets(), old(self).total(), ptr, size, r, final(self).buckets(), final(self).total()),
    {
        if ptr == 0 {
            return DeallocDecision::Ignore;
        }
        if size > LARGE_ALLOCATION {
            self.total_allocated = if self.total_allocated >= size * 4 { self.total_allocated - size * 4 } else { 0 };
            assert(self.pool@ == old(self).pool@);
            assert(self.buckets() == old(self).buckets());
            assert(self.wf());
            return DeallocDecision::Free;
        }
        let i = self.bucket_entry(size);
        let ghost b1 = self.buckets();
        proof {
            self.lemma_view_index(i as int);
        }
        let max_blocks: usize = if size < 1024 {
            32
        } else if size < 1024 * 1024 {
            16
        } else {
            8
        };
        if self.pool[i].1.len() < max_blocks {
            self.push_to(i, ptr);
            assert(b1[i as int].0 == size);
            DeallocDecision::Keep
        } else {
            let ghost p1 = self.pool@;
            self.total_allocated = if self.total_allocated >= size * 4 { self.total_allocated - size * 4 } else { 0 };
            assert(self.pool@ == p1);
            assert(self.buckets() =~= b1);
            assert(self.wf());
            DeallocDecision::Free
        }
    }

    /// Decides how to serve a request for a zeroed block of `size` words; the
    /// decision is that of `allocate`, and the caller zeroes the block.
    pub fn allocate_zeroes(&mut self, size: usize) -> (r: AllocDecision)
        requires
            old(self).wf(),
        ensures
            final(self).wf(),
            final(self).total() == old(self).total(),
            final(self).device() == old(self).device(),
            allocate_spec(old(self).buckets(), size, r, final(self).buckets()),
    {
        self.allocate(size)
    }

    /// The bytes counted as allocated that are not held by pooled blocks: the
    /// total with each pooled block's bytes taken off it in turn, down to zero.
    pub fn unpooled_bytes(&self) -> (r: usize)
        requires
            self.wf(),
        ensures
            r == saturating_sub_spec(self.total(), pooled_bytes(self.buckets())),
    {
        let ghost b = self.buckets();
        let ghost t = self.total();
        let mut r: usize = self.total_allocated;
        let mut i: usize = 0;
        while i < self.pool.len()
            invariant
                i <= self.pool@.len(),
                self.wf(),
                b == self.buckets(),
                t == self.total(),
                b.len() == self.pool@.len(),
                r == saturating_sub_spec(t, pooled_bytes(b.subrange(0, i as int))),
            decreases self.pool@.len() - i,
        {
            proof {
                self.lemma_view_index(i as int);
            }
            let size = self.pool[i].0;
            assert(b[i as int].0 <= LARGE_ALLOCATION);
            let step: usize = size * 4;
            let mut k: usize = 0;
            let ghost before = pooled_bytes(b.subrange(0, i as int));
            proof {
                lemma_pooled_bytes_nonneg(b.subrange(0, i as int));
            }
            while k < self.pool[i].1.len()
                invariant
                    i < self.pool@.len(),
                    b.len() == self.pool@.len(),
                    b[i as int] == (self.pool@[i as int].0, self.pool@[i as int].1@),
                    size == b[i as int].0,
                    step == size * 4,
                    k <= b[i as int].1.len(),
                    before >= 0,
                    r == saturating_sub_spec(t, before + step * k),
                decreases b[i as int].1.len() - k,
            {
                let ghost x = before + step * k;
                assert(step * k >= 0) by (nonlinear_arith);
                r = if r >= step { r - step } else { 0 };
                assert(step * (k + 1) == step * k + step) by (nonlinear_arith);
                assert(r == saturating_sub_spec(t, x + step));
                k = k + 1;
            }
            assert(b.subrange(0, i + 1).drop_last() =~= b.subrange(0, i as int));
            assert(pooled_bytes(b.subrange(0, i + 1)) == before + step * k) by {
                assert(b.subrange(0, i + 1).last() == b[i as int]);
                assert(size * 4 * b[i as int].1.len() == step * k);
            }
            i = i + 1;
        }
        assert(b.subrange(0, i as int) =~= b);
        r
    }

    /// Empties the pool and returns every pooled block, for the caller to free;
    /// the total drops to zero.
    pub fn clear(&mut self) -> (r: Vec<u64>)
        requires
            old(self).wf(),
        ensures
            final(self).wf(),
            r@ == all_handles(old(self).buckets()),
            final(self).buckets() == Seq::<(usize, Seq<u64>)>::empty(),
            final(self).total() == 0,
            final(self).device() == old(self).device(),
    {
        let mut out: Vec<u64> = Vec::new();
        let mut i: usize = 0;
        let ghost b = self.buckets();
        while i < self.pool.len()
            invariant
                i <= self.pool@.len(),
                self.buckets() == b,
                self.buckets().len() == self.pool@.len(),
                out@ == all_handles(b.subrange(0, i as int)),
            decreases self.pool@.len() - i,
        {
            proof {
                self.lemma_view_index(i as int);
            }
            let mut k: usize = 0;
            let ghost start = out@;
            while k < self.pool[i].1.len()
                invariant
                    i < self.pool@.len(),
                    k <= self.pool@[i as int].1@.len(),
                    out@ == start + self.pool@[i as int].1@.subrange(0, k as int),
                decreases self.pool@[i as int].1@.len() - k,
            {
                out.push(self.pool[i].1[k]);
                assert(self.pool@[i as int].1@.subrange(0, k + 1) =~= self.pool@[i as int].1@.subrange(0, k as int).push(
                    self.pool@[i as int].1@[k as int],
                ));
                k = k + 1;
            }
            assert(self.pool@[i as int].1@.subrange(0, k as int) =~= b[i as int].1);
            assert(b.subrange(0, i + 1).drop_last() =~= b.subrange(0, i as int));
            i = i + 1;
        }
        assert(b.subrange(0, i as int) =~= b);
        self.pool = Vec::new();
        self.total_allocated = 0;
        assert(self.buckets() =~= Seq::<(usize, Seq<u64>)>::empty());
        out
    }

    /// The number of pooled blocks of each block size, with the pool's total
    /// in whole mebibytes under the key `usize::MAX`.
    pub fn get_stats(&self) -> (r: HashMap<usize, usize>)
        requires
            self.wf(),
        ensures
            r@ == block_counts(self.buckets()).insert(usize::MAX, self.total() / 1048576),
    {
        let mut stats: HashMap<usize, usize> = HashMap::new();
        let mut i: usize = 0;
        while i < self.pool.len()
            invariant
                i <= self.pool@.len(),
                self.buckets().len() == self.pool@.len(),
                stats@ == block_counts(self.buckets().subrange(0, i as int)),
            decreases self.pool@.len() - i,
        {
            proof {
                self.lemma_view_index(i as int);
            }
            stats.insert(self.pool[i].0, self.pool[i].1.len());
            assert(self.buckets().subrange(0, i + 1).drop_last() =~= self.buckets().subrange(0, i as int));
            i = i + 1;
        }
        assert(self.buckets().subrange(0, i as int) =~= self.buckets());
        stats.insert(usize::MAX, self.total_allocated / 1024 / 1024);
        stats
    }

    /// Starts the preallocation of blocks for traces of `2^log_size` rows: the
    /// buckets of the planned block sizes are created, and the returned plan is
    /// driven with `next_preallocation` and `complete_preallocation`.
    pub fn preallocate_for_log_size(&mut self, log_size: u32) -> (plan: PreallocationPlan)
        requires
            old(self).wf(),
        ensures
            final(self).wf(),
            plan.wf(),
            plan.steps() == preallocation_steps(log_size),
            plan.stage() == 0 && plan.attempt() == 0,
            final(self).buckets() == if log_size > 20 {
                old(self).buckets()
            } else {
                with_bucket(
                    with_bucket(
                        with_bucket(old(self).buckets(), preallocation_steps(log_size)[0].0),
                        preallocation_steps(log_size)[1].0,
                    ),
                    preallocation_steps(log_size)[2].0,
                )
            },
            final(self).total() == old(self).total(),
            final(self).device() == old(self).device(),
    {
        if log_size > 20 {
            let plan = PreallocationPlan { steps: Vec::new(), stage: 0, attempt: 0 };
            assert(plan.steps() =~= preallocation_steps(log_size));
            return plan;
        }
        let k: u32 = if log_size < 10 { log_size } else { 10 };
        let mut base: usize = 1;
        let mut j: u32 = 0;
        proof {
            lemma2_to64();
        }
        while j < k
            invariant
                j <= k <= 10,
                base == pow2(j as nat),
                pow2(10) == 1024,
            decreases k - j,
        {
            proof {
                lemma_pow2_unfold((j + 1) as nat);
                vstd::arithmetic::power2::lemma_pow2_strictly_increases(j as nat, 10);
            }
            base = base * 2;
            j = j + 1;
        }
        proof {
            if k < 10 {
                vstd::arithmetic::power2::lemma_pow2_strictly_increases(k as nat, 10);
            }
        }
        let mut steps: Vec<(usize, usize)> = Vec::new();
        steps.push((base, 2));
        steps.push((2 * base, 2));
        steps.push((4 * base, 1));
        self.bucket_entry(base);
        self.bucket_entry(2 * base);
        self.bucket_entry(4 * base);
        let plan = PreallocationPlan { steps, stage: 0, attempt: 0 };
        assert(plan.steps() =~= preallocation_steps(log_size));
        plan
    }

    /// The number of blocks pooled for `size`, as a spec function.
    pub open spec fn bucket_len(&self, size: usize) -> int {
        let b = self.buckets();
        if has_bucket(b, size) {
            b[choose|i: int| 0 <= i < b.len() && #[trigger] b[i].0 == size].1.len() as int
        } else {
            0
        }
    }

    /// The plan asks for a block at its current position: the step's attempt
    /// is not used up and the step's bucket is not yet full.
    pub open spec fn pending(&self, plan: &PreallocationPlan) -> bool {
        &&& plan.stage() < plan.steps().len()
        &&& plan.attempt() < plan.steps()[plan.stage()].1
        &&& self.bucket_len(plan.steps()[plan.stage()].0) < plan.steps()[plan.stage()].1
    }

    /// Every attempt of step `s` from attempt `a` on finds nothing to do.
    pub open spec fn step_exhausted(&self, plan: &PreallocationPlan, s: int, a: int) -> bool {
        a >= plan.steps()[s].1 || self.bucket_len(plan.steps()[s].0) >= plan.steps()[s].1
    }

    /// The count of the bucket for `size` as found through `find_bucket`.
    proof fn lemma_bucket_len(&self, size: usize, i: int)
        requires
            self.wf(),
            0 <= i < self.buckets().len(),
            self.buckets()[i].0 == size,
        ensures
            self.bucket_len(size) == self.buckets()[i].1.len(),
    {
        let b = self.buckets();
        assert(has_bucket(b, size));
        let c = choose|k: int| 0 <= k < b.len() && #[trigger] b[k].0 == size;
        assert(c == i);
    }

    /// Moves the plan to the next block to allocate, skipping attempts whose
    /// bucket is already full, and returns that block's size; `None` once all
    /// steps are done.
    pub fn next_preallocation(&self, plan: &mut PreallocationPlan) -> (r: Option<usize>)
        requires
            self.wf(),
            old(plan).wf(),
            forall|s: int| 0 <= s < old(plan).steps().len() ==> #[trigger] old(plan).steps()[s].0 <= LARGE_ALLOCATION,
        ensures
            final(plan).wf(),
            final(plan).steps() == old(plan).steps(),
            final(plan).stage() >= old(plan).stage(),
            final(plan).stage() == old(plan).stage() ==> final(plan).attempt() == old(plan).attempt(),
            final(plan).stage() > old(plan).stage() ==> final(plan).attempt() == 0,
            old(plan).stage() < final(plan).stage() ==> self.step_exhausted(old(plan), old(plan).stage(), old(plan).attempt()),
            forall|s: int| old(plan).stage() < s < final(plan).stage() ==> #[trigger] self.step_exhausted(old(plan), s, 0),
            match r {
                Some(size) => self.pending(final(plan)) && size == final(plan).steps()[final(plan).stage()].0,
                None => final(plan).stage() == final(plan).steps().len(),
            },
    {
        while plan.stage < plan.steps.len()
            invariant
                self.wf(),
                plan.wf(),
                plan.steps() == old(plan).steps(),
                plan.stage() >= old(plan).stage(),
                plan.stage() == old(plan).stage() ==> plan.attempt() == old(plan).attempt(),
                plan.stage() > old(plan).stage() ==> plan.attempt() == 0,
                old(plan).stage() < plan.stage() ==> self.step_exhausted(old(plan), old(plan).stage(), old(plan).attempt()),
                forall|s: int| old(plan).stage() < s < plan.stage() ==> #[trigger] self.step_exhausted(old(plan), s, 0),
                forall|s: int| 0 <= s < old(plan).steps().len() ==> #[trigger] old(plan).steps()[s].0 <= LARGE_ALLOCATION,
            decreases plan.steps@.len() - plan.stage,
        {
            let (size, count) = plan.steps[plan.stage];
            if plan.attempt < count {
                let len = match self.find_bucket(size) {
                    Some(i) => {
                        proof {
                            self.lemma_view_index(i as int);
                            self.lemma_bucket_len(size, i as int);
                        }
                        self.pool[i].1.len()
                    },
                    None => 0,
                };
                if len < count {
                    return Some(size);
                }
            }
            plan.stage = plan.stage + 1;
            plan.attempt = 0;
        }
        None
    }

    /// Records the outcome of allocating the block the plan asked for: a
    /// non-null block is pooled and counted; either way the attempt is used.
    pub fn complete_preallocation(&mut self, plan: &mut PreallocationPlan, ptr: u64)
        requires
            old(self).wf(),
            old(plan).wf(),
            old(self).pending(old(plan)),
            old(plan).steps()[old(plan).stage()].0 <= LARGE_ALLOCATION,
            ptr != 0 ==> old(self).total() + old(plan).steps()[old(plan).stage()].0 * 4 <= usize::MAX,
        ensures
            final(self).wf(),
            final(plan).wf(),
            final(plan).steps() == old(plan).steps(),
            final(plan).stage() == old(plan).stage(),
            final(plan).attempt() == old(plan).attempt() + 1,
            final(self).device() == old(self).device(),
            ptr == 0 ==> final(self).buckets() == old(self).buckets() && final(self).total() == old(self).total(),
            ptr != 0 ==> {
                let size = old(plan).steps()[old(plan).stage()].0;
                let b1 = with_bucket(old(self).buckets(), size);
                &&& exists|i: int| 0 <= i < b1.len() && #[trigger] b1[i].0 == size
                    && final(self).buckets() == b1.update(i, (size, b1[i].1.push(ptr)))
                &&& final(self).total() == old(self).total() + size * 4
            },
    {
        let (size, _count) = plan.steps[plan.stage];
        if ptr != 0 {
            let i = self.bucket_entry(size);
            let ghost b1 = self.buckets();
            self.push_to(i, ptr);
            self.total_allocated = self.total_allocated + size * 4;
            assert(b1[i as int].0 == size);
        }
        plan.attempt = plan.attempt + 1;
    }
}

/// The pool in a global slot, or an empty pool for device 0 if the slot is empty.
pub open spec fn slot_buckets(slot: Option<CudaMemPool>) -> Seq<(usize, Seq<u64>)> {
    match slot {
        Some(p) => p.buckets(),
        None => Seq::empty(),
    }
}

/// The total of the pool in a global slot (0 for an empty slot).
pub open spec fn slot_total(slot: Option<CudaMemPool>) -> usize {
    match slot {
        Some(p) => p.total(),
        None => 0,
    }
}

/// The device of the pool in a global slot (device 0 for an empty slot).
pub open spec fn slot_device(slot: Option<CudaMemPool>) -> usize {
    match slot {
        Some(p) => p.device(),
        None => 0,
    }
}

/// The pool in a global slot, if any, satisfies the pool invariant.
pub open spec fn slot_wf(slot: Option<CudaMemPool>) -> bool {
    match slot {
        Some(p) => p.wf(),
        None => true,
    }
}

/// The global slot holds a pool, the one it held or a new empty pool for device 0.
fn global_memory_pool(slot: &mut Option<CudaMemPool>)
    requires
        slot_wf(*old(slot)),
    ensures
        *final(slot) is Some,
        slot_wf(*final(slot)),
        *old(slot) is Some ==> *final(slot) == *old(slot),
        slot_buckets(*final(slot)) == slot_buckets(*old(slot)),
        slot_total(*final(slot)) == slot_total(*old(slot)),
        slot_device(*final(slot)) == slot_device(*old(slot)),
{
    if slot.is_none() {
        *slot = Some(CudaMemPool::new(0));
    }
}

/// Installs an empty pool for `device_id` in an empty global slot; a slot that
/// already holds a pool keeps it.
pub fn init_memory_pool(slot: &mut Option<CudaMemPool>, device_id: usize)
    requires
        slot_wf(*old(slot)),
    ensures
        *final(slot) is Some,
        slot_wf(*final(slot)),
        *old(slot) is Some ==> *final(slot) == *old(slot),
        *old(slot) is None ==> slot_buckets(*final(slot)) == Seq::<(usize, Seq<u64>)>::empty()
            && slot_total(*final(slot)) == 0 && slot_device(*final(slot)) == device_id,
{
    if slot.is_none() {
        *slot = Some(CudaMemPool::new(device_id));
    }
}

/// A new pool for `device_id` with its preallocation for traces of
/// `2^log_size` rows started; once the plan is run, the pool is installed
/// with `install_memory_pool`.
pub fn init_memory_pool_with_preallocation(device_id: usize, log_size: u32) -> (r: (CudaMemPool, PreallocationPlan))
    ensures
        r.0.wf(),
        r.1.wf(),
        r.0.device() == device_id,
        r.0.total() == 0,
        r.1.steps() == preallocation_steps(log_size),
        r.1.stage() == 0 && r.1.attempt() == 0,
        r.0.buckets() == if log_size > 20 {
            Seq::<(usize, Seq<u64>)>::empty()
        } else {
            with_bucket(
                with_bucket(
                    with_bucket(Seq::<(usize, Seq<u64>)>::empty(), preallocation_steps(log_size)[0].0),
                    preallocation_steps(log_size)[1].0,
                ),
                preallocation_steps(log_size)[2].0,
            )
        },
{
    let mut pool = CudaMemPool::new(device_id);
    let plan = pool.preallocate_for_log_size(log_size);
    (pool, plan)
}

/// Installs `pool` in an empty global slot; a slot that already holds a pool
/// keeps it, and `pool` is handed back for the caller to release.
pub fn install_memory_pool(slot: &mut Option<CudaMemPool>, pool: CudaMemPool) -> (r: Option<CudaMemPool>)
    ensures
        *old(slot) is None ==> *final(slot) == Some(pool) && r is None,
        *old(slot) is Some ==> *final(slot) == *old(slot) && r == Some(pool),
{
    if slot.is_none() {
        *slot = Some(pool);
        None
    } else {
        Some(pool)
    }
}

/// `allocate` on the global pool, which is first created for device 0 if missing.
pub fn pool_allocate(slot: &mut Option<CudaMemPool>, size: usize) -> (r: AllocDecision)
    requires
        slot_wf(*old(slot)),
    ensures
        *final(slot) is Some,
        slot_wf(*final(slot)),
        allocate_spec(slot_buckets(*old(slot)), size, r, slot_buckets(*final(slot))),
        slot_total(*final(slot)) == slot_total(*old(slot)),
        slot_device(*final(slot)) == slot_device(*old(slot)),
{
    global_memory_pool(slot);
    match slot {
        Some(p) => p.allocate(size),
        None => AllocDecision::AllocateTracked,
    }
}

/// `record_allocation` on the global pool, which is first created for device 0 if missing.
pub fn pool_record_allocation(slot: &mut Option<CudaMemPool>, size: usize, ptr: u64)
    requires
        slot_wf(*old(slot)),
        ptr != 0 ==> slot_total(*old(slot)) + size * 4 <= usize::MAX,
    ensures
        *final(slot) is Some,
        slot_wf(*final(slot)),
        slot_buckets(*final(slot)) == slot_buckets(*old(slot)),
        slot_total(*final(slot)) == if ptr != 0 { (slot_total(*old(slot)) + size * 4) as usize } else { slot_total(*old(slot)) },
        slot_device(*final(slot)) == slot_device(*old(slot)),
{
    global_memory_pool(slot);
    match slot {
        Some(p) => p.record_allocation(size, ptr),
        None => {},
    }
}

/// `deallocate` on the global pool, which is first created for device 0 if missing.
pub fn pool_deallocate(slot: &mut Option<CudaMemPool>, ptr: u64, size: usize) -> (r: DeallocDecision)
    requires
        slot_wf(*old(slot)),
        ptr != 0 && size > LARGE_ALLOCATION ==> size * 4 <= usize::MAX,
    ensures
        *final(slot) is Some,
        slot_wf(*final(slot)),
        deallocate_spec(slot_buckets(*old(slot)), slot_total(*old(slot)), ptr, size, r,
            slot_buckets(*final(slot)), slot_total(*final(slot))),
        slot_device(*final(slot)) == slot_device(*old(slot)),
{
    global_memory_pool(slot);
    match slot {
        Some(p) => p.deallocate(ptr, size),
        None => DeallocDecision::Ignore,
    }
}

/// `allocate_zeroes` on the global pool, which is first created for device 0 if missing.
pub fn pool_allocate_zeroes(slot: &mut Option<CudaMemPool>, size: usize) -> (r: AllocDecision)
    requires
        slot_wf(*old(slot)),
    ensures
        *final(slot) is Some,
        slot_wf(*final(slot)),
        allocate_spec(slot_buckets(*old(slot)), size, r, slot_buckets(*final(slot))),
        slot_total(*final(slot)) == slot_total(*old(slot)),
        slot_device(*final(slot)) == slot_device(*old(slot)),
{
    global_memory_pool(slot);
    match slot {
        Some(p) => p.allocate_zeroes(size),
        None => AllocDecision::AllocateTracked,
    }
}

/// `clear` on the global pool, which is first created for device 0 if missing.
pub fn pool_clear(slot: &mut Option<CudaMemPool>) -> (r: Vec<u64>)
    requires
        slot_wf(*old(slot)),
    ensures
        *final(slot) is Some,
        slot_wf(*final(slot)),
        r@ == all_handles(slot_buckets(*old(slot))),
        slot_buckets(*final(slot)) == Seq::<(usize, Seq<u64>)>::empty(),
        slot_total(*final(slot)) == 0,
        slot_device(*final(slot)) == slot_device(*old(slot)),
{
    global_memory_pool(slot);
    match slot {
        Some(p) => p.clear(),
        None => Vec::new(),
    }
}

/// `preallocate_for_log_size` on the global pool, which is first created for
/// device 0 if missing.
pub fn pool_preallocate_for_log_size(slot: &mut Option<CudaMemPool>, log_size: u32) -> (plan: PreallocationPlan)
    requires
        slot_wf(*old(slot)),
    ensures
        *final(slot) is Some,
        slot_wf(*final(slot)),
        plan.wf(),
        plan.steps() == preallocation_steps(log_size),
        plan.stage() == 0 && plan.attempt() == 0,
        slot_buckets(*final(slot)) == if log_size > 20 {
            slot_buckets(*old(slot))
        } else {
            with_bucket(
                with_bucket(
                    with_bucket(slot_buckets(*old(slot)), preallocation_steps(log_size)[0].0),
                    preallocation_steps(log_size)[1].0,
                ),
                preallocation_steps(log_size)[2].0,
            )
        },
        slot_total(*final(slot)) == slot_total(*old(slot)),
        slot_device(*final(slot)) == slot_device(*old(slot)),
{
    global_memory_pool(slot);
    match slot {
        Some(p) => p.preallocate_for_log_size(log_size),
        None => PreallocationPlan { steps: Vec::new(), stage: 0, attempt: 0 },
    }
}

/// `get_stats` on the global pool, which is first created for device 0 if missing.
pub fn pool_get_stats(slot: &mut Option<CudaMemPool>) -> (r: HashMap<usize, usize>)
    requires
        slot_wf(*old(slot)),
    ensures
        *final(slot) is Some,
        slot_wf(*final(slot)),
        slot_buckets(*final(slot)) == slot_buckets(*old(slot)),
        slot_total(*final(slot)) == slot_total(*old(slot)),
        r@ == block_counts(slot_buckets(*old(slot))).insert(usize::MAX, slot_total(*old(slot)) / 1048576),
{
    global_memory_pool(slot);
    match slot {
        Some(p) => p.get_stats(),
        None => HashMap::new(),
    }
}

} // verus!

verus! {

/// The block sizes of a bucket list are distinct.
pub open spec fn distinct_sizes(b: Seq<(usize, Seq<u64>)>) -> bool {
    forall|i: int, j: int| 0 <= i < j < b.len() ==> #[trigger] b[i].0 != #[trigger] b[j].0
}

/// Every bucket holds at most `max_blocks_spec` of its block size.
pub open spec fn within_limits(b: Seq<(usize, Seq<u64>)>) -> bool {
    forall|i: int| 0 <= i < b.len() ==> (#[trigger] b[i]).1.len() <= max_blocks_spec(b[i].0)
}

proof fn lemma_with_bucket(b: Seq<(usize, Seq<u64>)>, size: usize)
    requires
        distinct_sizes(b),
    ensures
        distinct_sizes(with_bucket(b, size)),
        has_bucket(with_bucket(b, size), size),
        forall|i: int| 0 <= i < b.len() ==> #[trigger] with_bucket(b, size)[i] == b[i],
        with_bucket(b, size).len() == b.len() || (with_bucket(b, size).len() == b.len() + 1
            && with_bucket(b, size)[b.len() as int] == (size, Seq::<u64>::empty())),
{
    if !has_bucket(b, size) {
        let b1 = b.push((size, Seq::<u64>::empty()));
        assert(b1[b.len() as int].0 == size);
        assert forall|i: int, j: int| 0 <= i < j < b1.len() implies #[trigger] b1[i].0 != #[trigger] b1[j].0 by {
            if j == b.len() {
                assert(b[i].0 == b1[i].0);
            }
        }
    }
}

/// A block kept by the pool is the one handed out by the next request of its
/// size, which leaves the pool as it was before the block came back (but for
/// the bucket created for it, if its size had none).
pub proof fn lemma_returned_block_is_reused(
    b: Seq<(usize, Seq<u64>)>,
    t: usize,
    ptr: u64,
    size: usize,
    nb: Seq<(usize, Seq<u64>)>,
    nt: usize,
    r: AllocDecision,
    b2: Seq<(usize, Seq<u64>)>,
)
    requires
        distinct_sizes(b),
        deallocate_spec(b, t, ptr, size, DeallocDecision::Keep, nb, nt),
        allocate_spec(nb, size, r, b2),
    ensures
        r == AllocDecision::Reuse(ptr),
        b2 == with_bucket(b, size),
{
    assert(ptr != 0 && size <= LARGE_ALLOCATION);
    let b1 = with_bucket(b, size);
    lemma_with_bucket(b, size);
    let i = choose|i: int|
        0 <= i < b1.len() && #[trigger] b1[i].0 == size && if b1[i].1.len() < max_blocks_spec(size) {
            &&& DeallocDecision::Keep == DeallocDecision::Keep
            &&& nb == b1.update(i, (size, b1[i].1.push(ptr)))
            &&& nt == t
        } else {
            &&& DeallocDecision::Keep == DeallocDecision::Free
            &&& nb == b1
            &&& nt == saturating_sub_spec(t, size * 4)
        };
    assert(nb == b1.update(i, (size, b1[i].1.push(ptr))));
    assert(nb[i].0 == size && nb[i].1.len() > 0);
    assert(exact_nonempty(nb, size));
    match r {
        AllocDecision::Reuse(h) => {
            let k = choose|k: int| #[trigger] reuse_bucket(nb, size, k) && h == nb[k].1.last() && b2 == nb.update(
                k,
                (nb[k].0, nb[k].1.drop_last()),
            );
            if k != i {
                assert(nb[k] == b1[k]);
                assert(b1[k].0 != b1[i].0);
            }
            assert(k == i);
            assert(nb[i].1.drop_last() =~= b1[i].1);
            assert(b2 =~= b1);
        },
        _ => {},
    }
}

/// Giving back a block and taking one keep every bucket within its limit.
pub proof fn lemma_limits_preserved(
    b: Seq<(usize, Seq<u64>)>,
    t: usize,
    ptr: u64,
    size: usize,
    r: DeallocDecision,
    nb: Seq<(usize, Seq<u64>)>,
    nt: usize,
    r2: AllocDecision,
    size2: usize,
    b2: Seq<(usize, Seq<u64>)>,
)
    requires
        distinct_sizes(b),
        within_limits(b),
        deallocate_spec(b, t, ptr, size, r, nb, nt),
        allocate_spec(nb, size2, r2, b2),
    ensures
        within_limits(nb),
        within_limits(b2),
{
    lemma_with_bucket(b, size);
    let b1 = with_bucket(b, size);
    assert(within_limits(b1)) by {
        assert forall|i: int| 0 <= i < b1.len() implies (#[trigger] b1[i]).1.len() <= max_blocks_spec(b1[i].0) by {
            if i < b.len() {
                assert(b1[i] == b[i]);
            }
        }
    }
    if ptr != 0 && size <= LARGE_ALLOCATION {
        let i = choose|i: int|
            0 <= i < b1.len() && #[trigger] b1[i].0 == size && if b1[i].1.len() < max_blocks_spec(size) {
                &&& r == DeallocDecision::Keep
                &&& nb == b1.update(i, (size, b1[i].1.push(ptr)))
                &&& nt == t
            } else {
                &&& r == DeallocDecision::Free
                &&& nb == b1
                &&& nt == saturating_sub_spec(t, size * 4)
            };
        assert forall|k: int| 0 <= k < nb.len() implies (#[trigger] nb[k]).1.len() <= max_blocks_spec(nb[k].0) by {
            if k != i {
                assert(nb[k] == b1[k]);
            }
        }
    }
    match r2 {
        AllocDecision::Reuse(h) => {
            let k = choose|k: int| #[trigger] reuse_bucket(nb, size2, k) && h == nb[k].1.last() && b2 == nb.update(
                k,
                (nb[k].0, nb[k].1.drop_last()),
            );
            assert forall|j: int| 0 <= j < b2.len() implies (#[trigger] b2[j]).1.len() <= max_blocks_spec(b2[j].0) by {
                if j != k {
                    assert(b2[j] == nb[j]);
                }
            }
        },
        _ => {},
    }
}

/// Every pool the library hands out keeps its limits: `new` builds a
/// well-formed pool and every operation keeps it well formed, so in every
/// reachable pool the block sizes are distinct and at most
/// `LARGE_ALLOCATION`, no pooled block is null, and each bucket holds at most
/// `max_blocks_spec` blocks of its size.
pub proof fn lemma_pool_limits(p: &CudaMemPool)
    requires
        p.wf(),
    ensures
        distinct_sizes(p.buckets()),
        within_limits(p.buckets()),
        forall|i: int| 0 <= i < p.buckets().len() ==> (#[trigger] p.buckets()[i]).0 <= LARGE_ALLOCATION,
        forall|i: int, k: int| 0 <= i < p.buckets().len() && 0 <= k < p.buckets()[i].1.len() ==> #[trigger] p.buckets()[i].1[k] != 0,
{
}

/// Once each step's bucket holds the step's block count, as after a
/// preallocation in which every allocation succeeded, a plan for the same
/// steps asks for nothing: no position of it is pending, so
/// `next_preallocation` returns `None` at once and no block is allocated.
pub proof fn lemma_full_buckets_need_no_preallocation(p: &CudaMemPool, plan: &PreallocationPlan)
    requires
        p.wf(),
        plan.wf(),
        forall|s: int| 0 <= s < plan.steps().len() ==> p.bucket_len(#[trigger] plan.steps()[s].0) >= plan.steps()[s].1,
    ensures
        !p.pending(plan),
        forall|s: int, a: int| 0 <= s < plan.steps().len() ==> #[trigger] p.step_exhausted(plan, s, a),
{
    if plan.stage() < plan.steps().len() {
        assert(p.bucket_len(plan.steps()[plan.stage()].0) >= plan.steps()[plan.stage()].1);
    }
}

/// A request is served from the pool only with a block at least as large as
/// the request and at most a quarter larger: whenever the decision is
/// `Reuse(h)`, `h` is the last block of a bucket of block size `s` with
/// `size <= s <= size + size / 4`, and that block leaves the pool.
pub proof fn lemma_reused_block_fits_request(
    b: Seq<(usize, Seq<u64>)>,
    size: usize,
    r: AllocDecision,
    nb: Seq<(usize, Seq<u64>)>,
)
    requires
        allocate_spec(b, size, r, nb),
        r is Reuse,
    ensures
        exists|i: int|
            0 <= i < b.len() && size <= #[trigger] b[i].0 && b[i].0 <= size + size / 4 && b[i].1.len() > 0 && r->0
                == b[i].1.last() && nb == b.update(i, (b[i].0, b[i].1.drop_last())),
{
    let i = choose|i: int| #[trigger] reuse_bucket(b, size, i) && r->0 == b[i].1.last() && nb == b.update(i, (b[i].0, b[i].1.drop_last()));
    assert(size <= b[i].0);
}

/// A request of at most `16 * 1024 * 1024` words for which the pool holds a
/// block between `size` and `size + size / 4` words is served from the pool;
/// only larger requests are ever allocated without being counted.
pub proof fn lemma_fitting_block_is_reused(
    b: Seq<(usize, Seq<u64>)>,
    size: usize,
    r: AllocDecision,
    nb: Seq<(usize, Seq<u64>)>,
)
    requires
        allocate_spec(b, size, r, nb),
    ensures
        (size <= 16 * 1024 * 1024 && exists|i: int| 0 <= i < b.len() && size <= #[trigger] b[i].0 <= size + size / 4 && b[i].1.len() > 0)
            ==> r is Reuse,
        r is AllocateUntracked ==> size > 16 * 1024 * 1024,
{
    if size <= 16 * 1024 * 1024 && exists|i: int| 0 <= i < b.len() && size <= #[trigger] b[i].0 <= size + size / 4 && b[i].1.len() > 0 {
        let i = choose|i: int| 0 <= i < b.len() && size <= #[trigger] b[i].0 <= size + size / 4 && b[i].1.len() > 0;
        assert(fits(b, i, size));
    }
}

/// A returned non-null block of at most `16 * 1024 * 1024` words is kept
/// exactly when its size's bucket holds fewer blocks than the limit for that
/// size: 32 below 1024 words, 16 from 1024 up to below `1024 * 1024` words,
/// and 8 above; a null block is ignored and a larger block is freed.
pub proof fn lemma_returned_block_kept_below_limit(
    b: Seq<(usize, Seq<u64>)>,
    t: usize,
    ptr: u64,
    size: usize,
    r: DeallocDecision,
    nb: Seq<(usize, Seq<u64>)>,
    nt: usize,
)
    requires
        distinct_sizes(b),
        deallocate_spec(b, t, ptr, size, r, nb, nt),
    ensures
        ptr == 0 ==> r == DeallocDecision::Ignore,
        ptr != 0 && size > 16 * 1024 * 1024 ==> r == DeallocDecision::Free,
        ptr != 0 && size <= 16 * 1024 * 1024 ==> (r == DeallocDecision::Keep <==> forall|i: int|
            0 <= i < b.len() && #[trigger] b[i].0 == size ==> b[i].1.len() < (if size < 1024 {
                32int
            } else if size < 1024 * 1024 {
                16int
            } else {
                8int
            })),
        r == DeallocDecision::Keep || r == DeallocDecision::Free || r == DeallocDecision::Ignore,
{
    if ptr != 0 && size <= 16 * 1024 * 1024 {
        lemma_with_bucket(b, size);
        let b1 = with_bucket(b, size);
        let i = choose|i: int|
            0 <= i < b1.len() && #[trigger] b1[i].0 == size && if b1[i].1.len() < max_blocks_spec(size) {
                &&& r == DeallocDecision::Keep
                &&& nb == b1.update(i, (size, b1[i].1.push(ptr)))
                &&& nt == t
            } else {
                &&& r == DeallocDecision::Free
                &&& nb == b1
                &&& nt == saturating_sub_spec(t, size * 4)
            };
        if i < b.len() {
            assert(b1[i] == b[i]);
            assert forall|j: int| 0 <= j < b.len() && #[trigger] b[j].0 == size implies j == i by {
                if j != i {
                    assert(b[j].0 != b[i].0 || j == i);
                }
            }
        } else {
            assert(b1[i].1.len() == 0);
            assert forall|j: int| 0 <= j < b.len() && #[trigger] b[j].0 == size implies false by {
                assert(has_bucket(b, size));
            }
        }
    }
}

/// `clear` hands back exactly the pooled blocks: a handle is in the list it
/// returns if and only if some bucket holds it, and the list is as long as
/// all the buckets together.
pub proof fn lemma_cleared_handles_are_pooled_blocks(b: Seq<(usize, Seq<u64>)>)
    ensures
        forall|h: u64| all_handles(b).contains(h) <==> exists|i: int, k: int| 0 <= i < b.len() && 0 <= k < b[i].1.len() && #[trigger] b[i].1[k] == h,
        all_handles(b).len() == handle_count(b),
    decreases b.len(),
{
    if b.len() > 0 {
        let p = b.drop_last();
        lemma_cleared_handles_are_pooled_blocks(p);
        let l = b.last().1;
        assert forall|h: u64| all_handles(b).contains(h) <==> exists|i: int, k: int| 0 <= i < b.len() && 0 <= k < b[i].1.len() && #[trigger] b[i].1[k] == h by {
            if all_handles(b).contains(h) {
                let t = choose|t: int| 0 <= t < all_handles(b).len() && all_handles(b)[t] == h;
                if t < all_handles(p).len() {
                    assert(all_handles(p)[t] == h);
                    assert(all_handles(p).contains(h));
                    let (i, k) = choose|i: int, k: int| 0 <= i < p.len() && 0 <= k < p[i].1.len() && #[trigger] p[i].1[k] == h;
                    assert(b[i] == p[i]);
                } else {
                    let k = t - all_handles(p).len();
                    assert(l[k] == h);
                    assert(b[b.len() - 1].1[k] == h);
                }
            }
            if exists|i: int, k: int| 0 <= i < b.len() && 0 <= k < b[i].1.len() && #[trigger] b[i].1[k] == h {
                let (i, k) = choose|i: int, k: int| 0 <= i < b.len() && 0 <= k < b[i].1.len() && #[trigger] b[i].1[k] == h;
                if i < p.len() {
                    assert(p[i].1[k] == h);
                    assert(all_handles(p).contains(h));
                    let t = choose|t: int| 0 <= t < all_handles(p).len() && all_handles(p)[t] == h;
                    assert(all_handles(b)[t] == h);
                } else {
                    assert(all_handles(b)[all_handles(p).len() + k] == h);
                }
            }
        }
    }
}

/// The number of pooled blocks.
pub open spec fn handle_count(b: Seq<(usize, Seq<u64>)>) -> nat
    decreases b.len(),
{
    if b.len() == 0 {
        0
    } else {
        handle_count(b.drop_last()) + b.last().1.len()
    }
}

/// The statistics count, for each block size with a bucket, the blocks that
/// bucket holds, and have no other entry.
pub proof fn lemma_stats_count_each_bucket(b: Seq<(usize, Seq<u64>)>)
    requires
        distinct_sizes(b),
    ensures
        forall|i: int| 0 <= i < b.len() ==> block_counts(b).contains_key(#[trigger] b[i].0) && block_counts(b)[b[i].0] == b[i].1.len() as usize,
        forall|s: usize| block_counts(b).contains_key(s) ==> exists|i: int| 0 <= i < b.len() && #[trigger] b[i].0 == s,
    decreases b.len(),
{
    if b.len() > 0 {
        let p = b.drop_last();
        assert(distinct_sizes(p)) by {
            assert forall|i: int, j: int| 0 <= i < j < p.len() implies #[trigger] p[i].0 != #[trigger] p[j].0 by {
                assert(b[i] == p[i] && b[j] == p[j]);
            }
        }
        lemma_stats_count_each_bucket(p);
        assert forall|i: int| 0 <= i < b.len() implies block_counts(b).contains_key(#[trigger] b[i].0) && block_counts(b)[b[i].0] == b[i].1.len() as usize by {
            if i < p.len() {
                assert(b[i] == p[i]);
                assert(b[i].0 != b[b.len() - 1].0);
            }
        }
        assert forall|s: usize| block_counts(b).contains_key(s) implies exists|i: int| 0 <= i < b.len() && #[trigger] b[i].0 == s by {
            if s != b.last().0 {
                assert(block_counts(b) == block_counts(p).insert(b.last().0, b.last().1.len() as usize));
                assert(block_counts(p).contains_key(s));
                let i = choose|i: int| 0 <= i < p.len() && #[trigger] p[i].0 == s;
                assert(b[i] == p[i]);
            } else {
                assert(b[b.len() - 1].0 == s);
            }
        }
    }
}

/// A freed block's bytes come off the total, down to zero, and a kept block
/// leaves the total as it was and is the new last block of its size's bucket.
pub proof fn lemma_returned_block_total(
    b: Seq<(usize, Seq<u64>)>,
    t: usize,
    ptr: u64,
    size: usize,
    r: DeallocDecision,
    nb: Seq<(usize, Seq<u64>)>,
    nt: usize,
)
    requires
        deallocate_spec(b, t, ptr, size, r, nb, nt),
    ensures
        r == DeallocDecision::Free ==> nt == (if t >= size * 4 { t - size * 4 } else { 0 }),
        r == DeallocDecision::Ignore ==> nt == t && nb == b,
        r == DeallocDecision::Keep ==> nt == t && exists|i: int| 0 <= i < nb.len() && #[trigger] nb[i].0 == size && nb[i].1.last() == ptr
            && nb[i].1.len() >= 1,
{
    if r == DeallocDecision::Keep {
        let b1 = with_bucket(b, size);
        let i = choose|i: int|
            0 <= i < b1.len() && #[trigger] b1[i].0 == size && if b1[i].1.len() < max_blocks_spec(size) {
                &&& r == DeallocDecision::Keep
                &&& nb == b1.update(i, (size, b1[i].1.push(ptr)))
                &&& nt == t
            } else {
                &&& r == DeallocDecision::Free
                &&& nb == b1
                &&& nt == saturating_sub_spec(t, size * 4)
            };
        assert(nb[i].0 == size && nb[i].1.last() == ptr);
    }
}

} // verus!
