use circular_buffer::ring::CircularBuffer;
use circular_buffer::ring::EmptyError;
use circular_buffer::ring::IndexError;
use circular_buffer::ring::RangeError;

fn contents<const N: usize>(buf: &CircularBuffer<N, u8>) -> Vec<u8> {
    let (front, back) = buf.as_slices();
    let mut out = Vec::new();
    out.extend_from_slice(front);
    out.extend_from_slice(back);
    out
}

#[test]
fn new_buffer_is_empty() {
    let buf = CircularBuffer::<4, u8>::new();
    assert_eq!(buf.len(), 0);
    assert_eq!(buf.capacity(), 4);
    assert!(buf.is_empty());
    assert!(!buf.is_full());
    assert_eq!(contents(&buf), Vec::<u8>::new());
}

#[test]
fn capacity_never_exceeded() {
    let mut buf = CircularBuffer::<3, u8>::new();
    for i in 0..10u8 {
        buf.push_back(i);
        assert!(buf.len() <= 3);
    }
    buf.extend_from_slice(&[10, 11, 12, 13, 14]);
    assert!(buf.len() <= 3);
    for i in 0..10u8 {
        buf.push_front(i);
        assert!(buf.len() <= 3);
    }
}

#[test]
fn extend_equals_single_pushes() {
    let mut bulk = CircularBuffer::<5, u8>::new();
    bulk.extend_from_slice(&[1, 2, 3]);
    let mut single = CircularBuffer::<5, u8>::new();
    single.push_back(1);
    single.push_back(2);
    single.push_back(3);
    assert_eq!(contents(&bulk), contents(&single));
    assert_eq!(contents(&bulk), vec![1, 2, 3]);
}

#[test]
fn extend_beyond_capacity_keeps_last() {
    let mut buf = CircularBuffer::<3, u8>::new();
    buf.extend_from_slice(&[1, 2, 3, 4, 5]);
    assert_eq!(contents(&buf), vec![3, 4, 5]);
}

#[test]
fn extend_front_keeps_order_and_first() {
    let mut buf = CircularBuffer::<4, u8>::new();
    buf.push_back(9);
    buf.extend_from_slice_front(&[1, 2, 3]);
    assert_eq!(contents(&buf), vec![1, 2, 3, 9]);
    let mut buf2 = CircularBuffer::<2, u8>::new();
    buf2.extend_from_slice_front(&[1, 2, 3]);
    assert_eq!(contents(&buf2), vec![1, 2]);
}

#[test]
fn slices_concat_is_contents_for_all_lengths() {
    // Drive the buffer through wrapped states for every length from 0 to N.
    for len in 0..=6usize {
        let mut buf = CircularBuffer::<6, u8>::new();
        // Rotate the start offset away from zero first.
        buf.extend_from_slice(&[100, 101, 102, 103, 104, 105]);
        for _ in 0..4 {
            buf.pop_front().unwrap();
        }
        buf.clear();
        let mut expected = Vec::new();
        for i in 0..len {
            buf.push_back(i as u8);
            expected.push(i as u8);
        }
        let (front, back) = buf.as_slices();
        let mut joined = front.to_vec();
        joined.extend_from_slice(back);
        assert_eq!(joined, expected);
    }
}

#[test]
fn wraparound_gives_two_slices() {
    let mut buf = CircularBuffer::<4, u8>::new();
    buf.extend_from_slice(&[1, 2, 3, 4]);
    assert_eq!(buf.pop_front(), Ok(1));
    buf.push_back(5);
    assert_eq!(contents(&buf), vec![2, 3, 4, 5]);
    let (front, back) = buf.as_slices();
    assert!(!front.is_empty());
    assert!(!back.is_empty());
    assert_eq!(front, &[2, 3, 4]);
    assert_eq!(back, &[5]);
}

#[test]
fn eviction_on_full_buffer() {
    let mut buf = CircularBuffer::<3, u8>::new();
    buf.extend_from_slice(&[1, 2, 3]);
    assert!(buf.is_full());
    buf.push_back(4);
    assert_eq!(contents(&buf), vec![2, 3, 4]);

    let mut buf2 = CircularBuffer::<3, u8>::new();
    buf2.extend_from_slice(&[1, 2, 3]);
    buf2.push_front(0);
    assert_eq!(contents(&buf2), vec![0, 1, 2]);
}

#[test]
fn drain_removes_middle_range_once() {
    let mut buf = CircularBuffer::<4, u8>::new();
    buf.extend_from_slice(&[10, 20, 30, 40]);
    let removed = buf.drain(1, 3).unwrap();
    assert_eq!(removed, vec![20, 30]);
    assert_eq!(contents(&buf), vec![10, 40]);
    assert_eq!(buf.len(), 2);
}

#[test]
fn drain_rejects_bad_ranges() {
    let mut buf = CircularBuffer::<4, u8>::new();
    buf.extend_from_slice(&[10, 20, 30]);
    assert_eq!(buf.drain(2, 1), Err(RangeError));
    assert_eq!(buf.drain(0, 4), Err(RangeError));
    assert_eq!(contents(&buf), vec![10, 20, 30]);
}

#[test]
fn drain_across_wrap_boundary() {
    let mut buf = CircularBuffer::<4, u8>::new();
    buf.extend_from_slice(&[1, 2, 3, 4]);
    buf.pop_front().unwrap();
    buf.push_back(5);
    // Buffer holds [2, 3, 4, 5] with a wrapped layout.
    let removed = buf.drain(1, 3).unwrap();
    assert_eq!(removed, vec![3, 4]);
    assert_eq!(contents(&buf), vec![2, 5]);
}

#[test]
fn pop_on_empty_fails_and_leaves_empty() {
    let mut buf = CircularBuffer::<4, u8>::new();
    assert_eq!(buf.pop_back(), Err(EmptyError));
    assert_eq!(buf.len(), 0);
    assert_eq!(buf.pop_front(), Err(EmptyError));
    assert_eq!(buf.len(), 0);
}

#[test]
fn pop_returns_ends() {
    let mut buf = CircularBuffer::<4, u8>::new();
    buf.extend_from_slice(&[1, 2, 3]);
    assert_eq!(buf.pop_back(), Ok(3));
    assert_eq!(buf.pop_front(), Ok(1));
    assert_eq!(contents(&buf), vec![2]);
}

#[test]
fn get_and_set_by_logical_index() {
    let mut buf = CircularBuffer::<3, u8>::new();
    buf.extend_from_slice(&[1, 2, 3, 4]);
    // Buffer holds [2, 3, 4] in a wrapped layout.
    assert_eq!(buf.get(0), Ok(&2));
    assert_eq!(buf.get(2), Ok(&4));
    assert_eq!(buf.get(3), Err(IndexError));
    assert_eq!(buf.set(1, 9), Ok(()));
    assert_eq!(contents(&buf), vec![2, 9, 4]);
    assert_eq!(buf.set(3, 7), Err(IndexError));
    assert_eq!(contents(&buf), vec![2, 9, 4]);
}

#[test]
fn slices_mut_write_through_both_parts() {
    let mut buf = CircularBuffer::<4, u8>::new();
    buf.extend_from_slice(&[1, 2, 3, 4]);
    buf.pop_front().unwrap();
    buf.push_back(5);
    // Buffer holds [2, 3, 4, 5] in a wrapped layout.
    {
        let (front, back) = buf.as_slices_mut();
        assert_eq!(front, &[2, 3, 4]);
        assert_eq!(back, &[5]);
        front[0] = 9;
        back[0] = 7;
    }
    assert_eq!(contents(&buf), vec![9, 3, 4, 7]);
}

#[test]
fn get_mut_writes_through() {
    let mut buf = CircularBuffer::<3, u8>::new();
    buf.extend_from_slice(&[1, 2, 3, 4]);
    // Buffer holds [2, 3, 4] in a wrapped layout.
    match buf.get_mut(0) {
        Ok(slot) => *slot = 8,
        Err(_) => panic!("index 0 should be in range"),
    }
    assert_eq!(contents(&buf), vec![8, 3, 4]);
    assert!(buf.get_mut(3).is_err());
    assert_eq!(contents(&buf), vec![8, 3, 4]);
}

#[test]
fn truncate_back_keeps_front() {
    let mut buf = CircularBuffer::<4, u8>::new();
    buf.extend_from_slice(&[1, 2, 3, 4]);
    buf.truncate_back(2);
    assert_eq!(contents(&buf), vec![1, 2]);
    buf.truncate_back(5);
    assert_eq!(contents(&buf), vec![1, 2]);
}

#[test]
fn truncate_front_keeps_back() {
    let mut buf = CircularBuffer::<4, u8>::new();
    buf.extend_from_slice(&[1, 2, 3, 4]);
    buf.truncate_front(2);
    assert_eq!(contents(&buf), vec![3, 4]);
    buf.truncate_front(2);
    assert_eq!(contents(&buf), vec![3, 4]);
}

#[test]
fn clear_empties_the_buffer() {
    let mut buf = CircularBuffer::<4, u8>::new();
    buf.extend_from_slice(&[1, 2, 3]);
    buf.clear();
    assert!(buf.is_empty());
    assert_eq!(contents(&buf), Vec::<u8>::new());
    buf.push_back(7);
    assert_eq!(contents(&buf), vec![7]);
}

#[test]
fn capacity_one_keeps_newest() {
    let mut buf = CircularBuffer::<1, u8>::new();
    buf.push_back(1);
    buf.push_back(2);
    assert_eq!(contents(&buf), vec![2]);
    buf.push_front(3);
    assert_eq!(contents(&buf), vec![3]);
    assert!(buf.is_full());
}

#[test]
fn zero_capacity_drops_everything() {
    let mut buf = CircularBuffer::<0, u8>::new();
    buf.push_back(1);
    buf.push_front(2);
    buf.extend_from_slice(&[3, 4]);
    assert_eq!(buf.len(), 0);
    assert_eq!(buf.capacity(), 0);
    assert_eq!(buf.pop_front(), Err(EmptyError));
}

#[test]
fn matches_reference_deque_under_mixed_ops() {
    let mut buf = CircularBuffer::<5, u8>::new();
    let mut reference: Vec<u8> = Vec::new();
    let script: &[(u8, u8)] = &[
        (0, 1), (0, 2), (1, 3), (0, 4), (2, 0), (0, 5), (0, 6), (1, 7),
        (3, 0), (0, 8), (1, 9), (2, 0), (0, 10), (0, 11), (0, 12), (3, 0),
        (0, 13), (1, 14), (0, 15), (2, 0),
    ];
    for &(op, val) in script {
        match op {
            0 => {
                buf.push_back(val);
                reference.push(val);
                if reference.len() > 5 {
                    reference.remove(0);
                }
            },
            1 => {
                buf.push_front(val);
                reference.insert(0, val);
                if reference.len() > 5 {
                    reference.pop();
                }
            },
            2 => {
                let got = buf.pop_front().ok();
                let want = if reference.is_empty() {
                    None
                } else {
                    Some(reference.remove(0))
                };
                assert_eq!(got, want);
            },
            _ => {
                let got = buf.pop_back().ok();
                let want = reference.pop();
                assert_eq!(got, want);
            },
        }
        assert_eq!(contents(&buf), reference);
    }
}
