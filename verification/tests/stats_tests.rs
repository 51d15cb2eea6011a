use ft::pool::PoolTracker;
use ft::stats::compute_stats;
use ft::stats::dec_width;
use ft::stats::sort_lengths;
use ft::stats::His;
use ft::stats::Nx;

#[test]
fn decimal_widths() {
    assert_eq!(dec_width(0), 1);
    assert_eq!(dec_width(9), 1);
    assert_eq!(dec_width(10), 2);
    assert_eq!(dec_width(12345), 5);
    assert_eq!(dec_width(u64::MAX), 20);
}

#[test]
fn sort_orders_ascending() {
    let mut v: Vec<u32> = vec![3, 1, 2, 2];
    sort_lengths(&mut v);
    assert_eq!(v, vec![1, 2, 2, 3]);
}

#[test]
fn nx_uniform_lengths() {
    let lens: Vec<u32> = vec![10, 10, 10, 10];
    let nx = Nx::new().fill(&lens, 40);
    assert_eq!(nx.count, vec![1, 1, 2, 2, 3, 3, 3, 4, 4]);
    assert_eq!(nx.len, vec![10; 9]);
}

#[test]
fn nx_two_lengths() {
    let lens: Vec<u32> = vec![4, 8];
    let nx = Nx::new().fill(&lens, 12);
    assert_eq!(nx.count, vec![1, 1, 1, 1, 1, 1, 2, 2, 2]);
    assert_eq!(nx.len, vec![8, 8, 8, 8, 8, 8, 4, 4, 4]);
}

#[test]
fn nx_monotone_on_example() {
    let lens: Vec<u32> = vec![1, 2, 3, 5, 8, 13, 21];
    let total: u64 = lens.iter().map(|v| *v as u64).sum();
    let nx = Nx::new().fill(&lens, total);
    for d in 0..8 {
        assert!(nx.count[d] <= nx.count[d + 1]);
        assert!(nx.len[d] >= nx.len[d + 1]);
    }
}

#[test]
fn nx_widths_are_floored() {
    let lens: Vec<u32> = vec![4, 8];
    let nx = Nx::new().fill(&lens, 12);
    let (w1, w2) = nx.get_width();
    assert_eq!(w1, 9);
    assert_eq!(w2, 11);
}

#[test]
fn histogram_buckets_and_range() {
    let lens: Vec<u32> = vec![5, 10, 15];
    let his = His::new(5, 15, 3).fill(&lens);
    assert_eq!(his.step, 1);
    assert_eq!(his.start, 5);
    assert_eq!(his.unit, 5);
    assert_eq!(his.min, 5);
    assert_eq!(his.max, 15);
    let mut expect = vec![0u64; 30];
    expect[1] = 1;
    expect[6] = 1;
    expect[11] = 1;
    assert_eq!(his.count, expect);
}

#[test]
fn histogram_counts_conserve_records() {
    let lens: Vec<u32> = vec![1, 1, 2, 3, 100, 4000];
    let his = His::new(1, 4000, 6).fill(&lens);
    let sum: u64 = his.count.iter().sum();
    assert_eq!(sum, 6);
}

#[test]
fn histogram_outliers_collapse_into_edge_buckets() {
    // start is trimmed above the smallest value, so it lands in bucket 0;
    // values past the trimmed end collapse into the last bucket.
    let his = His::new(100, 128, 3).fill(&vec![5, 110, 4_000_000_000]);
    assert_eq!(his.count[0], 1);
    assert_eq!(his.count[29], 1);
    assert_eq!(his.min, 5);
    assert_eq!(his.max, 4_000_000_000);
}

#[test]
fn compute_stats_on_two_records() {
    let lens: Vec<u32> = vec![4, 8];
    let (his, nx) = compute_stats(&lens, 12);
    assert_eq!(his.min, 4);
    assert_eq!(his.max, 8);
    assert_eq!(his.step, 1);
    assert_eq!(his.start, 4);
    let sum: u64 = his.count.iter().sum();
    assert_eq!(sum, 2);
    assert_eq!(nx.count[0], 1);
    assert_eq!(nx.len[0], 8);
    assert_eq!(nx.count[8], 2);
    assert_eq!(nx.len[8], 4);
}

#[test]
fn pool_never_exceeds_size_outside_free() {
    let mut pool = PoolTracker::new(2);
    assert_eq!(pool.free_q, 2);
    pool.take_free();
    pool.send_filled();
    pool.take_free();
    assert_eq!(pool.filled_q + pool.held, 2);
    pool.take_filled();
    pool.send_free();
    pool.send_filled();
    pool.take_filled();
    pool.send_free();
    assert_eq!(pool.free_q, 2);
    assert_eq!(pool.filled_q + pool.held, 0);
    assert_eq!(pool.free_q + pool.filled_q + pool.held, pool.size);
}
