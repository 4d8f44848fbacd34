use ring_file::actor::{Msg, RingFileBackend};

#[test]
fn dump_after_writes_holds_them_all() {
    let mut b = RingFileBackend::new(64).expect("alloc");
    for i in 0..5 {
        assert!(b.process(Msg::Write(format!("line {}\n", i).into_bytes())).is_none());
    }
    let out = b.process(Msg::Dump).expect("dump answers");
    assert_eq!(out, b"line 0\nline 1\nline 2\nline 3\nline 4\n".to_vec());
}

#[test]
fn write_longer_than_ring_is_stored_across_wraps() {
    let mut b = RingFileBackend::new(8).expect("alloc");
    b.process(Msg::Write(b"abc".to_vec()));
    b.process(Msg::Write(b"0123456789xyz".to_vec()));
    assert_eq!(b.process(Msg::Dump), Some(b"56789xyz".to_vec()));
}

#[test]
fn clear_then_dump_is_empty() {
    let mut b = RingFileBackend::new(8).expect("alloc");
    b.process(Msg::Write(b"abc".to_vec()));
    assert!(b.process(Msg::Clear).is_none());
    assert_eq!(b.process(Msg::Dump), Some(Vec::new()));
    b.process(Msg::Write(b"de".to_vec()));
    assert_eq!(b.process(Msg::Dump), Some(b"de".to_vec()));
}
