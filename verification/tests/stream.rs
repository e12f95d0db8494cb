use circular_buffer::ring::CircularBuffer;

#[test]
fn write_then_read_round_trips() {
    let mut buf = CircularBuffer::<8, u8>::new();
    let msg = [b'h', b'e', b'l', b'l', b'o'];
    let written = buf.write(&msg);
    assert_eq!(written, 5);
    buf.flush();
    let mut dst = vec![0u8; 8];
    let got = buf.read(&mut dst);
    assert_eq!(got, 5);
    assert_eq!(&dst[..5], &msg);
    assert!(buf.is_empty());
}

#[test]
fn read_into_short_destination_is_partial() {
    let mut buf = CircularBuffer::<8, u8>::new();
    buf.write(&[1, 2, 3, 4, 5]);
    let mut dst = vec![0u8; 2];
    let got = buf.read(&mut dst);
    assert_eq!(got, 2);
    assert_eq!(dst, vec![1, 2]);
    assert_eq!(buf.len(), 3);
    let mut rest = vec![9u8; 4];
    let got2 = buf.read(&mut rest);
    assert_eq!(got2, 3);
    assert_eq!(rest, vec![3, 4, 5, 9]);
    assert!(buf.is_empty());
}

#[test]
fn read_across_wrap_boundary() {
    let mut buf = CircularBuffer::<4, u8>::new();
    buf.write(&[1, 2, 3, 4]);
    assert_eq!(buf.pop_front(), Ok(1));
    buf.push_back(5);
    let mut dst = vec![0u8; 4];
    let got = buf.read(&mut dst);
    assert_eq!(got, 4);
    assert_eq!(dst, vec![2, 3, 4, 5]);
    assert!(buf.is_empty());
}

#[test]
fn overlong_write_keeps_newest() {
    let mut buf = CircularBuffer::<3, u8>::new();
    let written = buf.write(&[1, 2, 3, 4, 5]);
    assert_eq!(written, 5);
    let mut dst = vec![0u8; 3];
    assert_eq!(buf.read(&mut dst), 3);
    assert_eq!(dst, vec![3, 4, 5]);
}

#[test]
fn fill_buf_and_consume() {
    let mut buf = CircularBuffer::<4, u8>::new();
    buf.write(&[1, 2, 3, 4]);
    buf.pop_front().unwrap();
    buf.push_back(5);
    // Wrapped: the first contiguous run is [2, 3, 4].
    let run = buf.fill_buf();
    assert_eq!(run, &[2, 3, 4]);
    let taken = run.len();
    buf.consume(taken);
    assert_eq!(buf.fill_buf(), &[5]);
    buf.consume(10);
    assert!(buf.is_empty());
    assert_eq!(buf.fill_buf(), &[] as &[u8]);
}
