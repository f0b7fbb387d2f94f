use vofa_next::ring_buffer::RingBuffer;

#[test]
fn test_ringbuffer_push_and_recent() {
    let mut rb: RingBuffer<i32> = RingBuffer::new(5);
    rb.push(1);
    rb.push(2);
    rb.push(3);
    assert_eq!(rb.recent(2), vec![2, 3]);
    assert_eq!(rb.recent(10), vec![1, 2, 3]);
    assert_eq!(rb.len(), 3);
}

#[test]
fn test_ringbuffer_overflow() {
    let mut rb: RingBuffer<i32> = RingBuffer::new(3);
    rb.push(1);
    rb.push(2);
    rb.push(3);
    rb.push(4);
    rb.push(5);
    assert_eq!(rb.len(), 3);
    assert_eq!(rb.all(), vec![3, 4, 5]);
}

#[test]
fn test_ringbuffer_extend() {
    let mut rb: RingBuffer<i32> = RingBuffer::new(5);
    rb.extend(&[1, 2, 3, 4, 5]);
    assert_eq!(rb.all(), vec![1, 2, 3, 4, 5]);
    rb.extend(&[6, 7]);
    assert_eq!(rb.all(), vec![3, 4, 5, 6, 7]);
}

#[test]
fn test_ringbuffer_empty() {
    let rb: RingBuffer<i32> = RingBuffer::new(5);
    assert!(rb.is_empty());
    assert_eq!(rb.recent(10), Vec::<i32>::new());
}

#[test]
fn test_ringbuffer_clear() {
    let mut rb: RingBuffer<i32> = RingBuffer::new(5);
    rb.push(1);
    rb.push(2);
    rb.clear();
    assert!(rb.is_empty());
}

#[test]
fn test_ringbuffer_resize_smaller() {
    let mut rb: RingBuffer<i32> = RingBuffer::new(5);
    rb.extend(&[1, 2, 3, 4, 5]);
    rb.resize(3);
    assert_eq!(rb.capacity(), 3);
    assert_eq!(rb.all(), vec![3, 4, 5]);
}

#[test]
fn test_ringbuffer_resize_larger() {
    let mut rb: RingBuffer<i32> = RingBuffer::new(3);
    rb.extend(&[1, 2, 3]);
    rb.resize(5);
    assert_eq!(rb.capacity(), 5);
    assert_eq!(rb.all(), vec![1, 2, 3]);
}

#[test]
fn test_ringbuffer_capacity_one() {
    let mut rb: RingBuffer<i32> = RingBuffer::new(1);
    rb.push(1);
    rb.push(2);
    rb.push(3);
    assert_eq!(rb.len(), 1);
    assert_eq!(rb.all(), vec![3]);
}

#[test]
fn ringbuffer_zero_capacity_becomes_one() {
    let mut rb: RingBuffer<u8> = RingBuffer::new(0);
    assert_eq!(rb.capacity(), 1);
    rb.push(9);
    rb.push(10);
    assert_eq!(rb.all(), vec![10]);
}

#[test]
fn ringbuffer_wraps_many_times_and_keeps_order() {
    let mut rb: RingBuffer<u32> = RingBuffer::new(4);
    for i in 0..23u32 {
        rb.push(i);
    }
    assert_eq!(rb.all(), vec![19, 20, 21, 22]);
    assert_eq!(rb.recent(2), vec![21, 22]);
    rb.resize(2);
    assert_eq!(rb.all(), vec![21, 22]);
    rb.push(23);
    assert_eq!(rb.all(), vec![22, 23]);
}

#[test]
fn ringbuffer_clones_strings() {
    let mut rb: RingBuffer<String> = RingBuffer::new(2);
    rb.extend(&["a".to_string(), "b".to_string(), "c".to_string()]);
    assert_eq!(rb.all(), vec!["b".to_string(), "c".to_string()]);
}
