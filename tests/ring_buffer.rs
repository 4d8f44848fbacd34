use ring_file::RingBuffer;

fn ring(cap: i32) -> RingBuffer {
    RingBuffer::new(cap).expect("alloc")
}

#[test]
fn writes_below_capacity_concatenate() {
    let mut r = ring(64);
    let parts: [&[u8]; 4] = [b"first ", b"second ", b"", b"third"];
    for p in parts.iter() {
        assert_eq!(r.write(p), p.len());
    }
    assert_eq!(r.snapshot(), b"first second third".to_vec());
}

#[test]
fn new_ring_is_empty() {
    let r = ring(8);
    assert!(r.snapshot().is_empty());
}

#[test]
fn sixteen_bytes_then_wrap_marker() {
    let mut r = ring(16);
    assert_eq!(r.write(b"abcdefgh"), 8);
    assert_eq!(r.write(b"ijklmnop"), 8);
    assert_eq!(r.snapshot(), b"abcdefghijklmnop".to_vec());
    assert_eq!(r.write(b"XY"), 2);
    assert_eq!(r.snapshot(), b"cdefghijklmnopXY".to_vec());
}

#[test]
fn write_one_short_of_capacity_does_not_wrap() {
    let mut r = ring(4);
    assert_eq!(r.write(b"abc"), 3);
    assert_eq!(r.snapshot(), b"abc".to_vec());
    assert_eq!(r.write(b"d"), 1);
    // the cursor is back at the start: the next byte overwrites the oldest
    assert_eq!(r.write(b"e"), 1);
    assert_eq!(r.snapshot(), b"bcde".to_vec());
}

#[test]
fn write_past_capacity_is_partial() {
    let mut r = ring(5);
    assert_eq!(r.write(b"abc"), 3);
    assert_eq!(r.write(b"defgh"), 2);
    assert_eq!(r.snapshot(), b"abcde".to_vec());
    assert_eq!(r.write(b"fgh"), 3);
    assert_eq!(r.snapshot(), b"defgh".to_vec());
}

#[test]
fn write_all_keeps_latest_bytes() {
    let mut r = ring(4);
    r.write_all(b"0123456789");
    assert_eq!(r.snapshot(), b"6789".to_vec());
    r.write_all(b"ab");
    assert_eq!(r.snapshot(), b"89ab".to_vec());
}

#[test]
fn write_all_below_capacity_round_trips() {
    let mut r = ring(32);
    let line = b"hello ring\n".to_vec();
    r.write_all(&line);
    assert_eq!(r.snapshot(), line);
}

#[test]
fn clear_empties_ring() {
    let mut r = ring(4);
    r.write_all(b"abcdef");
    r.clear();
    assert!(r.snapshot().is_empty());
    r.write_all(b"xy");
    assert_eq!(r.snapshot(), b"xy".to_vec());
}
