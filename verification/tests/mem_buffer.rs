//! The primary-keyed, level-bucketed buffer.

use skipagg::mem::memory_buffer::MemoryBuffer;

#[test]
fn memory_buffer_test_write_query() {
    let mut buffer: MemoryBuffer<&str, u64> = MemoryBuffer::new(64, None);
    let test_pk = "some_pk";
    for i in 1..8 {
        buffer.write(i, test_pk, i);
    }
    assert_eq!(buffer.query(test_pk, 1).len(), 3); // 2 4 6
    assert_eq!(buffer.query(test_pk, 2).len(), 1); // 4
    assert_eq!(buffer.query(test_pk, 0).len(), 7);
    for i in 1..8 {
        assert_eq!(buffer.query("some_other_pk", i).len(), 0);
    }
}

#[test]
fn memory_buffer_test_many_write() {
    let mut buffer: MemoryBuffer<&str, u64> = MemoryBuffer::new(64, None);
    let test_pk = "some_pk";
    for i in 1..10000000 {
        buffer.write(i, test_pk, i);
    }
    assert_eq!(buffer.query(test_pk, 5).len(), 312499);
}

#[test]
fn memory_buffer_bench_write() {
    let mut buffer: MemoryBuffer<i32, u64> = MemoryBuffer::new(64, None);
    let test_pk = 123i32;
    let n = 1000000;
    let start = std::time::Instant::now();
    for i in 1..n {
        buffer.write(i, test_pk, i);
    }
    let end = start.elapsed();
    println!("{:?}", end.as_nanos() as f64 / n as f64);
}

#[test]
fn mod_test_write_query() {
    let mut buffer: MemoryBuffer<&str, u64> = MemoryBuffer::new(64, None);
    let test_pk = "some_pk";
    for i in 1..8 {
        buffer.write(i, test_pk, i);
    }
    assert_eq!(buffer.query(test_pk, 1).len(), 3); // 2 4 6
    assert_eq!(buffer.query(test_pk, 2).len(), 1); // 4
    assert_eq!(buffer.query(test_pk, 0).len(), 7);
    for i in 1..8 {
        assert_eq!(buffer.query("some_other_pk", i).len(), 0);
    }
}

#[test]
fn test_test_write_query() {
    let mut buffer: MemoryBuffer<&str, u64> = MemoryBuffer::new(64, None);
    let test_pk = "some_pk";
    for i in 1..8 {
        buffer.write(i, test_pk, i);
    }
    assert_eq!(buffer.query(test_pk, 1).len(), 3); // 2 4 6
    assert_eq!(buffer.query(test_pk, 2).len(), 1); // 4
    assert_eq!(buffer.query(test_pk, 0).len(), 7);
    for i in 1..8 {
        assert_eq!(buffer.query("some_other_pk", i).len(), 0);
    }
}

#[test]
fn test_test_many_write() {
    let mut buffer: MemoryBuffer<&str, u64> = MemoryBuffer::new(64, None);
    let test_pk = "some_pk";
    for i in 1..1000000 {
        buffer.write(i, test_pk, i);
    }
    assert_eq!(buffer.query(test_pk, 5).len(), 31249);
}

#[test]
fn query_rows_carry_key_values() {
    let mut buffer: MemoryBuffer<&str, u64> = MemoryBuffer::new(64, None);
    buffer.write(1, "a", 11);
    buffer.write(1, "b", 22);
    buffer.write(2, "a", 33);
    let rows = buffer.query("a", 0);
    let got: Vec<(u64, u64)> = rows.iter().map(|(ts, m)| (*ts, *m.value)).collect();
    assert_eq!(got, vec![(1, 11), (2, 33)]);
    let rows_b = buffer.query("b", 0);
    assert_eq!(rows_b.len(), 1);
    assert_eq!(*rows_b.get(&1).unwrap().value, 22);
}
