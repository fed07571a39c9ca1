//! The dense line with its built-in skip aggregates.

use skipagg::aggregate::Aggregate;
use skipagg::index::line::Line;
use skipagg::tree::Tree;

#[test]
fn test_line() {}

#[test]
fn test_pop_front() {
    let mut line: Line<u64> = Line::new(100, 0, 0);
    line.append(1, 2);
    line.append(2, 3);
    line.append(3, 4);
    line.pop_front(); // no "1" now
    assert_eq!(line.query_value(2).unwrap(), 3);
    assert_eq!(line.query_agg(2), 7);
}

#[test]
fn test_many_pop_front() {
    let mut line: Line<u64> = Line::new(100, 0, 0);
    let mut sum = 0;
    for i in 1..100 {
        line.append(i, i);
        sum += i;
    }
    for i in 100..1000000 {
        let front = line.pop_front();
        match front {
            Some(front_value) => {
                sum -= front_value;
            }
            None => (),
        }
        line.append(i, i);
        sum += i;
        assert_eq!(line.query_agg(1 + i - 100), sum);
    }
}

#[test]
fn line_test_many_write() {
    let mut line: Line<u64> = Line::new(1000000, 0, 0);
    let mut sum: u64 = 0;
    for i in 1..1000000 {
        line.append(i, i);
        sum += i;
        assert_eq!(line.query_agg(1), sum);
    }

    for i in 1..100 {
        assert_eq!(line.query_value(i).unwrap(), i);
    }
}

#[test]
fn test_uncontinuously_write() {
    let mut line: Line<u64> = Line::new(1000000, 0, 0);
    for i in 1..10000 {
        line.append(i * 2, i);
    }
    assert_eq!(line.query_agg(2), 49995000);
}

#[test]
fn tree_operations_on_line() {
    let mut line: Line<u64> = Line::new(64, 0, 16);
    // update_aggregate folds the value into the cells on the descending
    // lowest-bit chain: from 6 it touches 6, then 4, then 0.
    line.update_aggregate(6, 5);
    assert_eq!(line.agg(6), Some(5));
    assert_eq!(line.agg(4), Some(5));
    assert_eq!(line.agg(0), Some(5));
    assert_eq!(line.agg(5), None);
    line.set_agg(8, 7);
    line.add_agg(8, 2);
    assert_eq!(line.agg(8), Some(9));
    assert_eq!(line.agg_or_identity(9), 0);
    // query_agg walks up from 6: it reads 6 and then 8.
    assert_eq!(line.query_agg(6), 14);
    assert!(line.check_bound(63));
    assert!(!line.check_bound(64));
}
