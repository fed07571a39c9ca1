//! The cache-backed line on its own.

use skipagg::line::Line;

#[test]
fn test_basic() {
    let n = 1000;
    let mut p: Line<u64> = Line::new(10, 0);
    for i in 0..n {
        p.push(i, i);
        assert_eq!(p.get(i), Some(i))
    }
}

#[test]
fn line_window_and_folding() {
    let mut p: Line<u64> = Line::new(4, 5);
    assert_eq!(p.get_range(), (5, 5));
    assert!(!p.check_range(5));
    p.push(7, 3);
    p.push(7, 4);
    p.push(9, 9);
    assert_eq!(p.get_range(), (5, 10));
    assert!(p.check_range(7));
    assert!(!p.check_range(10));
    assert_eq!(p.get(7), Some(7));
    assert_eq!(p.get(8), None);
    assert_eq!(p.get(9), Some(9));
}
