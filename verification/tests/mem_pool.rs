use stwo_cuda::mem_pool::{
    init_memory_pool, install_memory_pool, pool_allocate, pool_clear, pool_deallocate, pool_get_stats,
    pool_preallocate_for_log_size, pool_record_allocation, AllocDecision, CudaMemPool, DeallocDecision,
    LARGE_ALLOCATION, init_memory_pool_with_preallocation, pool_allocate_zeroes,
};

#[test]
fn fresh_pool_asks_for_tracked_allocation() {
    let mut pool = CudaMemPool::new(0);
    assert_eq!(pool.allocate(100), AllocDecision::AllocateTracked);
    pool.record_allocation(100, 0x1000);
    let stats = pool.get_stats();
    assert_eq!(stats.get(&usize::MAX), Some(&0));
    assert_eq!(stats.len(), 1);
}

#[test]
fn returned_block_is_reused_for_same_size() {
    let mut pool = CudaMemPool::new(0);
    assert_eq!(pool.deallocate(0x1000, 100), DeallocDecision::Keep);
    assert_eq!(pool.allocate(100), AllocDecision::Reuse(0x1000));
    assert_eq!(pool.allocate(100), AllocDecision::AllocateTracked);
}

#[test]
fn slightly_larger_block_is_reused() {
    let mut pool = CudaMemPool::new(0);
    assert_eq!(pool.deallocate(0x2000, 125), DeallocDecision::Keep);
    assert_eq!(pool.deallocate(0x3000, 126), DeallocDecision::Keep);
    // 126 is more than a quarter above 100; 125 is not.
    assert_eq!(pool.allocate(100), AllocDecision::Reuse(0x2000));
    assert_eq!(pool.allocate(100), AllocDecision::AllocateTracked);
    assert_eq!(pool.allocate(126), AllocDecision::Reuse(0x3000));
}

#[test]
fn exact_size_is_preferred_over_larger() {
    let mut pool = CudaMemPool::new(0);
    assert_eq!(pool.deallocate(0x2000, 110), DeallocDecision::Keep);
    assert_eq!(pool.deallocate(0x1000, 100), DeallocDecision::Keep);
    assert_eq!(pool.allocate(100), AllocDecision::Reuse(0x1000));
    assert_eq!(pool.allocate(100), AllocDecision::Reuse(0x2000));
}

#[test]
fn large_blocks_are_never_pooled() {
    let mut pool = CudaMemPool::new(0);
    let large = LARGE_ALLOCATION + 1;
    assert_eq!(pool.allocate(large), AllocDecision::AllocateUntracked);
    pool.record_allocation(100, 0x10);
    assert_eq!(pool.deallocate(0x5000, large), DeallocDecision::Free);
    // The total never drops below zero.
    assert_eq!(pool.get_stats().get(&usize::MAX), Some(&0));
    assert_eq!(pool.allocate(large), AllocDecision::AllocateUntracked);
}

#[test]
fn null_blocks_are_ignored() {
    let mut pool = CudaMemPool::new(0);
    assert_eq!(pool.deallocate(0, 100), DeallocDecision::Ignore);
    assert_eq!(pool.get_stats().len(), 1);
}

#[test]
fn bucket_limits_by_block_size() {
    let mut pool = CudaMemPool::new(0);
    for k in 0..32u64 {
        assert_eq!(pool.deallocate(0x100 + k, 10), DeallocDecision::Keep);
    }
    assert_eq!(pool.deallocate(0x999, 10), DeallocDecision::Free);
    for k in 0..16u64 {
        assert_eq!(pool.deallocate(0x1000 + k, 1024), DeallocDecision::Keep);
    }
    assert_eq!(pool.deallocate(0x9999, 1024), DeallocDecision::Free);
    for k in 0..8u64 {
        assert_eq!(pool.deallocate(0x10000 + k, 1024 * 1024), DeallocDecision::Keep);
    }
    assert_eq!(pool.deallocate(0x99999, 1024 * 1024), DeallocDecision::Free);
    let stats = pool.get_stats();
    assert_eq!(stats.get(&10), Some(&32));
    assert_eq!(stats.get(&1024), Some(&16));
    assert_eq!(stats.get(&(1024 * 1024)), Some(&8));
}

#[test]
fn freeing_a_full_bucket_block_lowers_total() {
    let mut pool = CudaMemPool::new(0);
    for _ in 0..8 {
        assert_eq!(pool.allocate(1 << 20), AllocDecision::AllocateTracked);
        pool.record_allocation(1 << 20, 0x42);
    }
    // 8 blocks of 4 MiB each.
    assert_eq!(pool.get_stats().get(&usize::MAX), Some(&32));
    for k in 0..8u64 {
        assert_eq!(pool.deallocate(0x100 + k, 1 << 20), DeallocDecision::Keep);
    }
    assert_eq!(pool.deallocate(0x200, 1 << 20), DeallocDecision::Free);
    assert_eq!(pool.get_stats().get(&usize::MAX), Some(&28));
}

#[test]
fn clear_returns_every_pooled_block() {
    let mut pool = CudaMemPool::new(3);
    pool.deallocate(0x1, 10);
    pool.deallocate(0x2, 20);
    pool.deallocate(0x3, 10);
    assert_eq!(pool.clear(), vec![0x1, 0x3, 0x2]);
    let stats = pool.get_stats();
    assert_eq!(stats.len(), 1);
    assert_eq!(pool.allocate(10), AllocDecision::AllocateTracked);
}

#[test]
fn stats_count_blocks_per_size() {
    let mut pool = CudaMemPool::new(0);
    pool.deallocate(0x1, 10);
    pool.deallocate(0x2, 10);
    pool.deallocate(0x3, 20);
    assert_eq!(pool.allocate(20), AllocDecision::Reuse(0x3));
    let stats = pool.get_stats();
    assert_eq!(stats.get(&10), Some(&2));
    assert_eq!(stats.get(&20), Some(&0));
    assert_eq!(stats.len(), 3);
}

#[test]
fn preallocation_plan_for_small_traces() {
    let mut pool = CudaMemPool::new(0);
    let mut plan = pool.preallocate_for_log_size(4);
    let mut requested = vec![];
    let mut next_ptr = 0x100u64;
    while let Some(size) = pool.next_preallocation(&mut plan) {
        requested.push(size);
        // The first attempt for the base size fails.
        let ptr = if requested.len() == 1 { 0 } else { next_ptr };
        next_ptr += 1;
        pool.complete_preallocation(&mut plan, ptr);
    }
    assert!(plan.is_done());
    assert_eq!(requested, vec![16, 16, 32, 32, 64]);
    let stats = pool.get_stats();
    assert_eq!(stats.get(&16), Some(&1));
    assert_eq!(stats.get(&32), Some(&2));
    assert_eq!(stats.get(&64), Some(&1));
}

#[test]
fn preallocation_caps_base_size_and_skips_full_buckets() {
    let mut pool = CudaMemPool::new(0);
    pool.deallocate(0x7, 1024);
    pool.deallocate(0x8, 1024);
    let mut plan = pool.preallocate_for_log_size(15);
    let mut requested = vec![];
    while let Some(size) = pool.next_preallocation(&mut plan) {
        requested.push(size);
        pool.complete_preallocation(&mut plan, 0x100);
    }
    assert_eq!(requested, vec![2048, 2048, 4096]);
}

#[test]
fn no_preallocation_for_large_traces() {
    let mut pool = CudaMemPool::new(0);
    let mut plan = pool.preallocate_for_log_size(21);
    assert_eq!(pool.next_preallocation(&mut plan), None);
    assert_eq!(pool.get_stats().len(), 1);
}

#[test]
fn global_pool_is_created_on_first_use() {
    let mut slot: Option<CudaMemPool> = None;
    assert_eq!(pool_allocate(&mut slot, 10), AllocDecision::AllocateTracked);
    assert!(slot.is_some());
    pool_record_allocation(&mut slot, 10, 0x1);
    assert_eq!(pool_deallocate(&mut slot, 0x1, 10), DeallocDecision::Keep);
    assert_eq!(pool_allocate_zeroes(&mut slot, 10), AllocDecision::Reuse(0x1));
    let mut plan = pool_preallocate_for_log_size(&mut slot, 1);
    assert!(!plan.is_done());
    let p = slot.as_mut().unwrap();
    assert_eq!(p.next_preallocation(&mut plan), Some(2));
    assert_eq!(pool_get_stats(&mut slot).get(&2), Some(&0));
    assert_eq!(pool_clear(&mut slot), Vec::<u64>::new());
}

#[test]
fn initialized_global_pool_is_kept() {
    let mut slot: Option<CudaMemPool> = None;
    init_memory_pool(&mut slot, 1);
    pool_deallocate(&mut slot, 0x9, 10);
    init_memory_pool(&mut slot, 2);
    assert_eq!(pool_allocate(&mut slot, 10), AllocDecision::Reuse(0x9));
    let (pool, _plan) = init_memory_pool_with_preallocation(5, 3);
    let rejected = install_memory_pool(&mut slot, pool);
    assert!(rejected.is_some());
    let mut empty: Option<CudaMemPool> = None;
    let (pool, _plan) = init_memory_pool_with_preallocation(5, 3);
    assert!(install_memory_pool(&mut empty, pool).is_none());
    assert!(empty.is_some());
}

#[test]
fn unpooled_bytes_leave_out_pooled_blocks() {
    let mut pool = CudaMemPool::new(3);
    assert_eq!(pool.device_id(), 3);
    pool.record_allocation(100, 0x1000);
    pool.record_allocation(50, 0x2000);
    assert_eq!(pool.total_allocated(), 600);
    assert_eq!(pool.deallocate(0x2000, 50), DeallocDecision::Keep);
    // 600 bytes counted, 200 of them held by the pooled block.
    assert_eq!(pool.unpooled_bytes(), 400);
    assert_eq!(pool.deallocate(0x3000, 500), DeallocDecision::Keep);
    // The pooled blocks hold more than the total: the count stops at zero.
    assert_eq!(pool.unpooled_bytes(), 0);
    assert_eq!(pool.clear().len(), 2);
    assert_eq!(pool.total_allocated(), 0);
}
