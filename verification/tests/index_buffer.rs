//! The level-bucketed buffer without keys.

use skipagg::index::memory_buffer::MemoryBuffer;

#[test]
fn test_write_query() {
    let mut buffer: MemoryBuffer<u64> = MemoryBuffer::new(64, None);
    for i in 1..8 {
        buffer.write(i, i);
    }
    assert_eq!(buffer.query(1).len(), 3); // 2 4 6
    assert_eq!(buffer.query(2).len(), 1); // 4
    assert_eq!(buffer.query(0).len(), 7);
}

#[test]
fn test_many_write() {
    let mut buffer: MemoryBuffer<u64> = MemoryBuffer::new(64, None);
    for i in 1..10000000 {
        buffer.write(i, i);
    }
    assert_eq!(buffer.query(5).len(), 312499);
}

#[test]
fn bench_write() {
    let mut buffer: MemoryBuffer<u64> = MemoryBuffer::new(64, None);
    let n = 1000000;
    let start = std::time::Instant::now();
    for i in 1..n {
        buffer.write(i, i);
    }
    let end = start.elapsed();
    println!("{:?}", end.as_nanos() as f64 / n as f64);
}

#[test]
fn query_values_and_order() {
    let mut buffer: MemoryBuffer<u64> = MemoryBuffer::new(64, None);
    for i in 1..8 {
        buffer.write(i, 10 * i);
    }
    // A repeated timestamp merges into the bucket's last entry, replacing
    // its value.
    buffer.write(7, 777);
    let all = buffer.query(0);
    let entries: Vec<(u64, u64)> = all.iter().map(|(ts, m)| (*ts, *m.value())).collect();
    assert_eq!(
        entries,
        vec![(1, 10), (2, 20), (3, 30), (4, 40), (5, 50), (6, 60), (7, 777)]
    );
}
