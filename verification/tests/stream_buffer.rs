use mig::engine::stream_buffer::StreamBuffer;
use mig::errors::Error;

#[test]
fn test_add_data() {
    let mut buffer = StreamBuffer::new(100);
    let mut buf = vec![0, 0];

    let data = vec![1, 2, 3];
    buffer.add_data(0, &data).unwrap();

    assert_eq!(buffer.pull_data(&mut buf), 2);
    assert_eq!(buf, vec![1, 2]);

    assert_eq!(buffer.pull_data(&mut buf), 1);
    assert_eq!(buf, vec![3, 2]);

    let data = vec![5, 6, 7];
    buffer.add_data(4, &data).unwrap();

    assert_eq!(buffer.pull_data(&mut buf), 0);
    assert_eq!(buf, vec![3, 2]);

    let data = vec![4];
    buffer.add_data(3, &data).unwrap();

    assert_eq!(buffer.pull_data(&mut buf), 2);
    assert_eq!(buf, vec![4, 5]);

    assert_eq!(buffer.pull_data(&mut buf), 2);
    assert_eq!(buf, vec![6, 7]);

    assert_eq!(buffer.pull_data(&mut buf), 0);
    assert_eq!(buf, vec![6, 7]);

    assert_eq!(buffer.pull_data(&mut buf), 0);
    assert_eq!(buf, vec![6, 7]);
}

#[test]
fn test_overflow() {
    let mut buffer = StreamBuffer::new(3);
    let data = vec![1, 2];
    buffer.add_data(0, &data).unwrap();

    let data = vec![3, 4];
    match buffer.add_data(2, &data) {
        Err(Error::BufferOverflow) => {},
        _ => assert!(false, "Buffer overflow expected"),
    };
}

#[test]
fn test_mismatch() {
    let mut buffer = StreamBuffer::new(3);
    let data = vec![1, 2];
    buffer.add_data(0, &data).unwrap();

    let data = vec![3, 4];
    match buffer.add_data(0, &data) {
        Err(Error::InvalidData) => {},
        _ => assert!(false, "Buffer mismatch expected"),
    };
}

#[test]
fn add_data_order_does_not_matter() {
    let mut forward = StreamBuffer::new(100);
    forward.add_data(0, &vec![1, 2]).unwrap();
    forward.add_data(2, &vec![3, 4]).unwrap();

    let mut backward = StreamBuffer::new(100);
    backward.add_data(2, &vec![3, 4]).unwrap();
    backward.add_data(0, &vec![1, 2]).unwrap();

    let mut a = vec![0; 8];
    let mut b = vec![0; 8];
    assert_eq!(forward.pull_data(&mut a), 4);
    assert_eq!(backward.pull_data(&mut b), 4);
    assert_eq!(a, b);
    assert_eq!(&a[..4], &[1, 2, 3, 4]);
}

#[test]
fn add_data_idempotent() {
    let mut buffer = StreamBuffer::new(100);
    buffer.add_data(0, &vec![1, 2, 3]).unwrap();
    buffer.add_data(0, &vec![1, 2, 3]).unwrap();

    let mut buf = vec![0; 10];
    assert_eq!(buffer.pull_data(&mut buf), 3);
    assert_eq!(&buf[..3], &[1, 2, 3]);
    assert_eq!(buffer.pull_data(&mut buf), 0);
}

#[test]
fn flow_control_boundary() {
    let mut buffer = StreamBuffer::new(100);
    let exact = vec![9; 10];
    buffer.add_data(90, &exact).unwrap();

    let mut beyond_buffer = StreamBuffer::new(100);
    let beyond = vec![9; 10];
    match beyond_buffer.add_data(91, &beyond) {
        Err(Error::BufferOverflow) => {},
        _ => assert!(false, "Buffer overflow expected"),
    };
    assert_eq!(beyond_buffer.maximum_accepted_offset(), 99);
}

#[test]
fn is_readable_and_empty() {
    let mut buffer = StreamBuffer::new(10);
    assert!(!buffer.is_readable());
    assert!(buffer.is_empty());
    buffer.add_data(1, &vec![5]).unwrap();
    assert!(!buffer.is_readable());
    assert!(!buffer.is_empty());
    buffer.add_data(0, &vec![4]).unwrap();
    assert!(buffer.is_readable());
}
