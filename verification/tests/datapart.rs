//! The skip index end to end: writes, the four queries, the laws on
//! concrete workloads, and the cache-miss instrumentation.

use skipagg::data::DataPart;
use skipagg::traits::First;
use skipagg::traits::Join;

fn answer(l: u64, r: u64) -> u64 {
    (r - l) * (l + r - 1) / 2
}

fn sum_part(n: u64) -> DataPart<u64> {
    let mut x: DataPart<u64> = DataPart::new(1, |_: u64| 10);
    for i in 1..n {
        x.push(i, i);
    }
    x
}

#[test]
fn basic() {
    let mut x: DataPart<u64> = DataPart::new(1, |_: u64| 10);
    let n = 1000;
    for i in 1..n {
        x.push(i, i);
    }
    let r = x.constrained_query(4, 30);
    assert_eq!(r, Some((22, 8)));
}

#[test]
fn correct() {
    let mut x: DataPart<u64> = DataPart::new(1, |_: u64| 10);
    let n = 1000;
    for i in 1..n {
        x.push(i, i);
    }
    for i in 1..n {
        let (sum, r) = x.constrained_query(i, n).unwrap();
        assert_eq!(answer(i, r), sum);
        let (sum, r) = x.constrained_query(i, i + 1).unwrap();
        assert_eq!(answer(i, r), sum);
        let (sum, r) = x.constrained_query(i, i + 100).unwrap();
        assert_eq!(answer(i, r), sum);
    }

    for i in 1..n {
        for j in (i + 1)..n {
            assert_eq!(Some(answer(i, j)), x.range_query(i, j))
        }
    }

    for i in 1..n {
        assert_eq!(answer(i, n), x.suffix_query(i).unwrap().0)
    }
    let mut arr = Vec::with_capacity(n as usize);
    for i in (n..=1).rev() {
        arr.push(i);
    }
    for &i in arr.iter() {
        assert_eq!(answer(i, n), x.suffix_query(i).unwrap().0)
    }
}

#[test]
fn bench_lru_size() {
    for i in 10..100 {
        let mut x: DataPart<u64> = DataPart::new(1, move |_: u64| i);
        let n = 100;
        for i in 1..n {
            x.push(i, i)
        }
        for l in 1..n {
            for r in (l + 1)..n {
                assert_eq!(Some(answer(l, r)), x.range_query(l, r))
            }
        }
        let mut misses = String::new();
        for level in 0..64 {
            misses.push_str(&format!("{} ", x.line_cache_miss(level)));
        }
        println!("{}", misses);
    }
}

#[test]
fn largest_aligned_block_from_one() {
    let mut x = sum_part(1000);
    assert_eq!(x.constrained_query(1, 1000), Some((1, 2)));
}

#[test]
fn range_over_three_to_seventeen() {
    let mut x = sum_part(1000);
    assert_eq!(x.range_query(3, 17), Some(133));
}

#[test]
fn suffix_from_five_hundred() {
    let mut x = sum_part(1000);
    assert_eq!(x.suffix_query(500), Some((374750, 1000)));
}

#[test]
fn empty_part_has_no_range() {
    let mut x: DataPart<u64> = DataPart::new(1, |_: u64| 10);
    assert_eq!(x.range_query(1, 2), None);
}

#[test]
fn single_point() {
    let mut x: DataPart<u64> = DataPart::new(1, |_: u64| 10);
    x.push(1, 42);
    assert_eq!(x.range_query(1, 2), Some(42));
    assert_eq!(x.range_query(1, 3), None);
}

#[test]
fn single_block_identity() {
    let mut x = sum_part(1000);
    for t in [1u64, 2, 3, 17, 256, 511, 512, 999] {
        assert_eq!(x.constrained_query(t, t + 1), Some((t, t + 1)));
    }
}

#[test]
fn right_maximal_alignment() {
    let mut x = sum_part(1000);
    for (t, r) in [(4u64, 30u64), (6, 100), (8, 512), (96, 720), (513, 700)] {
        let (_, end) = x.constrained_query(t, r).unwrap();
        assert!(end <= r);
        assert!(end > t);
        let width = end - t;
        assert!(width.is_power_of_two());
        assert_eq!(t % width, 0);
    }
    // At the populated window's end the block is clamped: its width need
    // not be a power of two.
    let (sum, end) = x.constrained_query(960, 1000).unwrap();
    assert_eq!(end, 1000);
    assert_eq!(sum, answer(960, 1000));
}

#[test]
fn greedy_matches_unbounded_constrained() {
    let mut x = sum_part(1000);
    for t in [1u64, 2, 16, 512, 640, 999] {
        assert_eq!(x.greedy_query(t), x.constrained_query(t, u64::MAX));
    }
}

#[test]
fn left_projection_range_keeps_first() {
    let mut x: DataPart<First> = DataPart::new(1, |_: u64| 10);
    for i in 1..100 {
        x.push(i, First(i));
    }
    assert_eq!(x.range_query(3, 17), Some(First(3)));
    assert_eq!(x.range_query(40, 90), Some(First(40)));
}

#[test]
fn concatenation_range_in_order() {
    let mut x: DataPart<Join> = DataPart::new(1, |_: u64| 10);
    x.push(1, Join(String::from("a")));
    x.push(2, Join(String::from("b")));
    x.push(3, Join(String::from("c")));
    let joined = x.range_query(1, 4).unwrap();
    assert_eq!(joined.0, "abc");
}

#[test]
fn suffix_combines_later_block_first() {
    let mut x: DataPart<Join> = DataPart::new(1, |_: u64| 10);
    x.push(1, Join(String::from("a")));
    x.push(2, Join(String::from("b")));
    x.push(3, Join(String::from("c")));
    // The suffix recursion combines the later suffix before the earlier
    // block, so a non-commutative combiner sees the blocks reversed.
    let (joined, end) = x.suffix_query(1).unwrap();
    assert_eq!(end, 4);
    assert_eq!(joined.0, "bca");
}

#[test]
fn cache_miss_monotone() {
    let run = |cap: usize| -> Vec<u64> {
        let mut x: DataPart<u64> = DataPart::new(1, move |_: u64| cap);
        let n = 100;
        for i in 1..n {
            x.push(i, i);
        }
        for l in 1..n {
            for r in (l + 1)..n {
                assert_eq!(Some(answer(l, r)), x.range_query(l, r));
            }
        }
        (0..64).map(|lvl| x.line_cache_miss(lvl)).collect()
    };
    let small = run(10);
    let large = run(50);
    for lvl in 0..64 {
        assert!(large[lvl] <= small[lvl]);
    }
}

#[test]
fn push_regression_is_rejected() {
    let mut x: DataPart<u64> = DataPart::new(1, |_: u64| 10);
    assert!(x.try_push(5, 50));
    assert!(x.try_push(5, 5));
    assert!(!x.try_push(3, 30));
    assert!(!x.try_push(0, 1));
    // The rejected pushes left the index unchanged.
    assert_eq!(x.constrained_query(5, 6), Some((55, 6)));
    assert_eq!(x.range_query(3, 4), None);
}
