use custom_nosql_cdn::ring::CircularBuffer;

#[test]
fn overflow_keeps_last_n_in_order() {
    let mut b: CircularBuffer<u32> = CircularBuffer::new(3);
    for i in 0..4 {
        b.push(i);
    }
    assert_eq!(b.get_logs(), vec![1, 2, 3]);
    assert_eq!(b.len(), 3);
    assert_eq!(b.capacity(), 3);
}

#[test]
fn under_capacity_keeps_everything() {
    let mut b: CircularBuffer<String> = CircularBuffer::new(5);
    b.push("a".to_string());
    b.push("b".to_string());
    assert_eq!(b.get_logs(), vec!["a".to_string(), "b".to_string()]);
}

#[test]
fn zero_capacity_keeps_nothing() {
    let mut b: CircularBuffer<u8> = CircularBuffer::new(0);
    b.push(1);
    b.push(2);
    assert!(b.get_logs().is_empty());
}

#[test]
fn snapshot_is_a_copy() {
    let mut b: CircularBuffer<u8> = CircularBuffer::new(2);
    b.push(1);
    let snap = b.get_logs();
    b.push(2);
    b.push(3);
    assert_eq!(snap, vec![1]);
    assert_eq!(b.get_logs(), vec![2, 3]);
}
