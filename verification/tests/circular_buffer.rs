use concurrency_kit::circular_buffer::{BufferFullError, CircularBuffer};

#[test]
pub fn test_write_size() {
    let mut a = CircularBuffer::<i32>::new(10);

    let _ = a.write(1);

    assert_eq!(a.size, 1);
    assert_eq!(a.tail, 1);
}

#[test]
pub fn test_write_read() {
    let mut a = CircularBuffer::<i32>::new(10);

    let _ = a.write(1);

    if let Some(read) = a.read() {
        assert_eq!(read, 1);
    }

    assert_eq!(a.head, 1);
    assert_eq!(a.size, 0);
}

#[test]
pub fn test_sequence() {
    let mut a = CircularBuffer::<i32>::new(5);

    for i in 0..5 {
        let _ = a.write(i);
    }

    for i in 0..5 {
        if let Some(read) = a.read() {
            assert_eq!(read, i);
            assert_eq!(a.head, if i == 4 { 0 } else { (i + 1) as usize });
        }
    }

    assert_eq!(a.size, 0);
}

#[test]
pub fn test_read_empty() {
    let mut a = CircularBuffer::<i32>::new(5);

    assert!(a.read().is_none());
    assert_eq!(a.head, 0);
    assert_eq!(a.tail, 0);
    assert_eq!(a.size, 0);
}

#[test]
pub fn test_clear() {
    let mut a = CircularBuffer::<i32>::new(5);

    for i in 0..5 {
        let _ = a.write(i);
    }

    a.clear();

    let b: Box<[Option<i32>]> = vec![None; 5].into_boxed_slice();

    assert_eq!(a.array, b);
    assert_eq!(a.size, 0);
}

#[test]
pub fn test_wrap_around() {
    let mut a = CircularBuffer::<i32>::new(5);

    for i in 0..5 {
        let _ = a.write(i);
    }

    assert_eq!(a.tail, 0);
    assert_eq!(a.size, 5);

    for i in 0..5 {
        if let Some(read) = a.read() {
            assert_eq!(read, i);
            assert_eq!(a.head, if i == 4 { 0 } else { (i + 1) as usize });
        }
    }
    assert_eq!(a.head, 0);
    assert_eq!(a.size, 0);
}

#[test]
pub fn test_write_full() {
    let mut a = CircularBuffer::<i32>::new(5);

    for i in 0..5 {
        let _ = a.write(i);
    }

    assert_eq!(a.tail, 0);
    assert_eq!(a.size, 5);

    let baco = a.write(70);

    assert!(baco.is_err());
}

#[test]
pub fn test_overwrite() {
    let mut a = CircularBuffer::<i32>::new(5);

    for i in 0..5 {
        let _ = a.write(i);
    }

    let over = 10;

    a.overwrite(over);

    if let Some(read) = a.read() {
        assert_eq!(read, over);
    }
}

#[test]
fn full_buffer_rejects_and_keeps_its_items() {
    let mut a = CircularBuffer::<u8>::new(2);
    assert_eq!(a.write(1), Ok(()));
    assert_eq!(a.write(2), Ok(()));
    assert_eq!(a.write(3), Err(BufferFullError));
    assert_eq!(a.size(), 2);
    assert_eq!(a.read(), Some(1));
    assert_eq!(a.read(), Some(2));
    assert_eq!(a.read(), None);
}

#[test]
fn reads_follow_write_order_across_the_wrap() {
    let mut a = CircularBuffer::<u32>::new(3);
    let _ = a.write(1);
    let _ = a.write(2);
    assert_eq!(a.read(), Some(1));
    let _ = a.write(3);
    let _ = a.write(4);
    assert_eq!(a.tail, 1);
    assert_eq!(a.read(), Some(2));
    assert_eq!(a.read(), Some(3));
    assert_eq!(a.read(), Some(4));
    assert_eq!(a.size(), 0);
    assert_eq!(a.head, 1);
}

#[test]
fn zero_capacity_buffer_refuses_writes() {
    let mut a = CircularBuffer::<u8>::new(0);
    assert!(a.write(1).is_err());
    assert_eq!(a.read(), None);
    assert_eq!(a.size(), 0);
}

#[test]
fn clear_empties_only_the_first_size_slots() {
    let mut a = CircularBuffer::<u8>::new(3);
    let _ = a.write(1);
    let _ = a.write(2);
    let _ = a.write(3);
    assert_eq!(a.read(), Some(1));
    assert_eq!(a.read(), Some(2));
    // one item left, in slot 2
    a.clear();
    assert_eq!(a.size(), 0);
    assert_eq!((a.head, a.tail), (0, 0));
    let expected: Box<[Option<u8>]> = vec![None, None, Some(3)].into_boxed_slice();
    assert_eq!(a.array, expected);
}

#[test]
fn overwrite_on_empty_buffer_changes_no_item() {
    let mut a = CircularBuffer::<u8>::new(2);
    a.overwrite(9);
    assert_eq!(a.size(), 0);
    assert_eq!(a.read(), None);
    assert_eq!(a.write(5), Ok(()));
    assert_eq!(a.read(), Some(5));
}
