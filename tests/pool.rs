use thek::header::HEADER_SIZE;
use thek::pool::{AllocError, InitError, SegmentPool};

const BASE: usize = 0x1000;

fn example_pool() -> SegmentPool {
    let config = vec![(32usize, 4usize), (128usize, 2usize)];
    match SegmentPool::new(&config, BASE, vec![0u8; 384]) {
        Ok(p) => p,
        Err(_) => panic!("configuration fits the region"),
    }
}

fn in_bucket(pool: &SegmentPool, b: usize, payload: usize) -> bool {
    let bk = pool.bucket(b);
    let seg = payload - HEADER_SIZE;
    seg >= bk.base_address()
        && seg < bk.base_address() + bk.segment_size() * bk.segment_count()
        && (seg - bk.base_address()) % bk.segment_size() == 0
}

#[test]
fn example_scenario_escalates_and_replenishes() {
    let mut pool = example_pool();
    let mut got = Vec::new();
    for _ in 0..4 {
        let p = pool.allocate(20).unwrap();
        assert!(in_bucket(&pool, 0, p));
        assert_eq!(pool.owner_of(p), 0);
        got.push(p);
    }
    assert_eq!(pool.bucket(0).free_count(), 0);
    let fifth = pool.allocate(20).unwrap();
    assert!(in_bucket(&pool, 1, fifth));
    assert_eq!(pool.owner_of(fifth), 1);
    got.push(fifth);
    for p in &got {
        pool.free(*p);
    }
    assert_eq!(pool.bucket(0).free_count(), 4);
    assert_eq!(pool.bucket(1).free_count(), 2);
    let again = pool.allocate(20).unwrap();
    assert!(in_bucket(&pool, 0, again));
    assert_eq!(pool.owner_of(again), 0);
}

#[test]
fn initial_layout_is_consecutive() {
    let pool = example_pool();
    assert_eq!(pool.bucket_count(), 2);
    assert_eq!(pool.bucket(0).base_address(), BASE);
    assert_eq!(pool.bucket(1).base_address(), BASE + 128);
    assert_eq!(pool.bucket(0).free_count(), 4);
    assert_eq!(pool.bucket(1).free_count(), 2);
    assert_eq!(pool.max_supported_size(), 120);
}

#[test]
fn first_allocation_takes_top_of_stack() {
    let mut pool = example_pool();
    // the stack holds the lowest address at the bottom
    assert_eq!(pool.allocate(1), Ok(BASE + 3 * 32 + HEADER_SIZE));
    assert_eq!(pool.allocate(24), Ok(BASE + 2 * 32 + HEADER_SIZE));
    assert_eq!(pool.allocate(25), Ok(BASE + 128 + 128 + HEADER_SIZE));
}

#[test]
fn conservation_counts() {
    let mut pool = example_pool();
    let a = pool.allocate(10).unwrap();
    let b = pool.allocate(100).unwrap();
    assert_eq!(pool.bucket(0).free_count(), 3);
    assert_eq!(pool.bucket(1).free_count(), 1);
    pool.free(a);
    assert_eq!(pool.bucket(0).free_count(), 4);
    pool.free(b);
    assert_eq!(pool.bucket(1).free_count(), 2);
}

#[test]
fn no_duplicate_addresses() {
    let mut pool = example_pool();
    let mut got = Vec::new();
    while let Ok(p) = pool.allocate(8) {
        assert!(!got.contains(&p));
        got.push(p);
    }
    assert_eq!(got.len(), 6);
}

#[test]
fn round_trip_returns_same_address() {
    let mut pool = example_pool();
    let p = pool.allocate(16).unwrap();
    pool.free(p);
    assert_eq!(pool.allocate(16), Ok(p));
}

#[test]
fn escalated_free_returns_to_larger_bucket() {
    let mut pool = example_pool();
    for _ in 0..4 {
        pool.allocate(20).unwrap();
    }
    let p = pool.allocate(20).unwrap();
    assert_eq!(pool.owner_of(p), 1);
    assert_eq!(pool.bucket(1).free_count(), 1);
    pool.free(p);
    assert_eq!(pool.bucket(0).free_count(), 0);
    assert_eq!(pool.bucket(1).free_count(), 2);
}

#[test]
fn exhaustion_reports_out_of_memory() {
    let mut pool = example_pool();
    for _ in 0..6 {
        pool.allocate(20).unwrap();
    }
    assert_eq!(pool.allocate(20), Err(AllocError::OutOfMemory));
    assert_eq!(pool.allocate(1), Err(AllocError::OutOfMemory));
    assert_eq!(pool.bucket(0).free_count(), 0);
    assert_eq!(pool.bucket(1).free_count(), 0);
}

#[test]
fn exhaustion_of_large_bucket_only() {
    let mut pool = example_pool();
    pool.allocate(100).unwrap();
    pool.allocate(100).unwrap();
    assert_eq!(pool.allocate(100), Err(AllocError::OutOfMemory));
    // the smaller bucket is never tried for a large request
    assert_eq!(pool.bucket(0).free_count(), 4);
    assert!(pool.allocate(24).is_ok());
}

#[test]
fn boundary_sizes() {
    let mut pool = example_pool();
    let max = pool.max_supported_size();
    assert_eq!(pool.allocate(max + 1), Err(AllocError::SizeUnsupported));
    let a = pool.allocate(max).unwrap();
    assert_eq!(pool.owner_of(a), 1);
    pool.allocate(max).unwrap();
    assert_eq!(pool.allocate(max), Err(AllocError::OutOfMemory));
    assert_eq!(pool.allocate(max + 1), Err(AllocError::SizeUnsupported));
}

#[test]
fn zero_size_is_served_by_smallest_bucket() {
    let mut pool = example_pool();
    let p = pool.allocate(0).unwrap();
    assert_eq!(pool.owner_of(p), 0);
}

#[test]
fn empty_registry_supports_nothing() {
    let mut pool = SegmentPool::new(&Vec::new(), BASE, vec![0u8; 16]).unwrap();
    assert_eq!(pool.max_supported_size(), 0);
    assert_eq!(pool.allocate(0), Err(AllocError::SizeUnsupported));
}

#[test]
fn overcommit_is_refused() {
    let config = vec![(32usize, 4usize), (128usize, 2usize)];
    assert!(matches!(
        SegmentPool::new(&config, BASE, vec![0u8; 383]),
        Err(InitError::Overcommit)
    ));
    let huge = vec![(64usize, usize::MAX)];
    assert!(matches!(
        SegmentPool::new(&huge, BASE, vec![0u8; 64]),
        Err(InitError::Overcommit)
    ));
}

#[test]
fn invalid_configs_are_refused() {
    let small = vec![(8usize, 4usize)];
    assert!(matches!(SegmentPool::new(&small, BASE, vec![0u8; 64]), Err(InitError::InvalidConfig)));
    let empty_bucket = vec![(32usize, 0usize)];
    assert!(matches!(
        SegmentPool::new(&empty_bucket, BASE, vec![0u8; 64]),
        Err(InitError::InvalidConfig)
    ));
    let unordered = vec![(64usize, 1usize), (32usize, 1usize)];
    assert!(matches!(
        SegmentPool::new(&unordered, BASE, vec![0u8; 96]),
        Err(InitError::InvalidConfig)
    ));
    let equal = vec![(32usize, 1usize), (32usize, 1usize)];
    assert!(matches!(SegmentPool::new(&equal, BASE, vec![0u8; 64]), Err(InitError::InvalidConfig)));
}

#[test]
fn bucket_try_pop_and_push() {
    let mut pool = example_pool();
    let p = pool.allocate(100).unwrap();
    let q = pool.allocate(100).unwrap();
    assert_ne!(p, q);
    pool.free(q);
    pool.free(p);
    // last freed is on top
    assert_eq!(pool.allocate(100), Ok(p));
}

#[test]
fn client_writes_leave_headers_intact() {
    let mut pool = example_pool();
    let mut got = Vec::new();
    while let Ok(p) = pool.allocate(0) {
        got.push(p);
    }
    for p in &got {
        let cap = if pool.owner_of(*p) == 0 { 32 - HEADER_SIZE } else { 128 - HEADER_SIZE };
        for off in 0..cap {
            pool.write_payload(*p, off, 0xFF);
        }
        assert_eq!(pool.read_payload(*p, cap - 1), 0xFF);
    }
    let owners: Vec<usize> = got.iter().map(|p| pool.owner_of(*p)).collect();
    assert_eq!(owners, vec![0, 0, 0, 0, 1, 1]);
    for p in &got {
        pool.free(*p);
    }
    assert_eq!(pool.bucket(0).free_count(), 4);
    assert_eq!(pool.bucket(1).free_count(), 2);
    let q = pool.allocate(30).unwrap();
    assert_eq!(pool.owner_of(q), 1);
}
