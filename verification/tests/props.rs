use circularbuf::Buffer;

#[test]
fn empty_write() {
    let mut buf = Buffer::new(vec![0u8; 4]);
    let n: usize = buf.write(b"");
    assert_eq!(n, 0);
    assert_eq!(buf.read_hint(), 0);
    assert_eq!(buf.written(), 0);
    assert_eq!(buf.read_to_bytes(), Vec::<u8>::new());
}

#[test]
fn capacity_bound_many_writes() {
    // readable_length() never exceeds capacity(), whatever is written.
    let mut buf = Buffer::new(vec![0u8; 5]);
    let inputs: &[&[u8]] = &[b"", b"a", b"bc", b"defgh", b"ijklmnopq", b"r"];
    for inp in inputs.iter() {
        let n: usize = buf.write(inp);
        assert_eq!(n, inp.len());
        assert!(buf.read_hint() <= buf.size());
    }
    assert_eq!(buf.read_hint(), 5);
}

#[test]
fn write_count_fidelity() {
    // write returns the full input length and written() sums all of them,
    // even when the inputs are far longer than the capacity.
    let mut buf = Buffer::new(vec![0u8; 2]);
    let mut total: usize = 0;
    let inputs: &[&[u8]] = &[b"abcdefg", b"", b"hi", b"jklm"];
    for inp in inputs.iter() {
        let n: usize = buf.write(inp);
        assert_eq!(n, inp.len());
        total += n;
    }
    assert_eq!(buf.written(), total);
    assert_eq!(total, 13);
}

#[test]
fn idempotent_reads() {
    let mut buf = Buffer::new(vec![0u8; 4]);
    buf.write(b"abcdef");

    let first = buf.read_to_bytes();
    let second = buf.read_to_bytes();
    assert_eq!(first, second);
    assert_eq!(first.as_slice(), b"cdef");

    let mut dst1 = vec![0u8; 4];
    let mut dst2 = vec![0u8; 4];
    let n1: usize = buf.read_into(&mut dst1);
    let n2: usize = buf.read_into(&mut dst2);
    assert_eq!(n1, n2);
    assert_eq!(dst1, dst2);
    assert_eq!(buf.read_hint(), buf.read_hint());
}

#[test]
fn reset_matches_fresh() {
    // A reset buffer behaves like a freshly constructed one.
    let mut used = Buffer::new(vec![0u8; 8]);
    used.write(b"some old data, long enough to wrap");
    used.reset();
    assert_eq!(used.read_hint(), 0);
    assert_eq!(used.written(), 0);

    let mut fresh = Buffer::new(vec![0u8; 8]);
    used.write(b"abcde");
    fresh.write(b"abcde");
    assert_eq!(used.read_to_bytes(), fresh.read_to_bytes());
    assert_eq!(used.read_to_bytes().as_slice(), b"abcde");
}

#[test]
fn wrap_on_boundary() {
    // Filling the buffer exactly, then one more byte, wraps by one.
    let mut buf = Buffer::new(vec![0u8; 4]);
    buf.write(b"abcd");
    assert_eq!(buf.read_hint(), 4);
    assert_eq!(buf.read_to_bytes().as_slice(), b"abcd");
    buf.write(b"e");
    assert_eq!(buf.read_hint(), 4);
    assert_eq!(buf.read_to_bytes().as_slice(), b"bcde");
}

#[test]
fn read_into_leaves_tail_unchanged() {
    let mut buf = Buffer::new(vec![0u8; 4]);
    buf.write(b"xy");

    let mut dst = vec![9u8; 6];
    let n: usize = buf.read_into(&mut dst);
    assert_eq!(n, 2);
    assert_eq!(dst, vec![b'x', b'y', 9u8, 9u8, 9u8, 9u8]);
}

#[test]
fn from_storage() {
    // Construction never exposes the storage's prior contents as readable.
    let buf = Buffer::from(vec![1u8, 2u8, 3u8]);
    assert_eq!(buf.size(), 3);
    assert_eq!(buf.read_hint(), 0);
    assert_eq!(buf.read_to_bytes(), Vec::<u8>::new());
    assert_eq!(buf.into_inner(), vec![1u8, 2u8, 3u8]);
}
