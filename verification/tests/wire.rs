use carrotson::wire::{
    read_u32, read_u64, read_u8, write_u16, write_u32, write_u64, write_u8, ReadError, Reader,
};

#[test]
fn read_u8_takes_one_byte() {
    let mut r = Reader::new(vec![7, 8]);
    assert_eq!(read_u8(&mut r), Ok(7));
    assert_eq!(r.remaining(), 1);
    assert_eq!(read_u8(&mut r), Ok(8));
    assert_eq!(read_u8(&mut r), Err(ReadError::UnexpectedEof));
}

#[test]
fn read_u32_is_little_endian() {
    let mut r = Reader::new(vec![0x78, 0x56, 0x34, 0x12, 0xff]);
    assert_eq!(read_u32(&mut r), Ok(0x1234_5678));
    assert_eq!(r.remaining(), 1);
}

#[test]
fn read_u64_is_little_endian() {
    let mut r = Reader::new(vec![8, 7, 6, 5, 4, 3, 2, 1]);
    assert_eq!(read_u64(&mut r), Ok(0x0102_0304_0506_0708));
    assert_eq!(r.remaining(), 0);
}

#[test]
fn read_u64_largest_value() {
    let mut r = Reader::new(vec![0xff; 8]);
    assert_eq!(read_u64(&mut r), Ok(u64::MAX));
}

#[test]
fn short_read_fails_and_drains_the_reader() {
    let mut r = Reader::new(vec![1, 2, 3]);
    assert_eq!(read_u32(&mut r), Err(ReadError::UnexpectedEof));
    assert_eq!(r.remaining(), 0);
    let mut r = Reader::new(vec![1, 2, 3, 4, 5, 6, 7]);
    assert_eq!(read_u64(&mut r), Err(ReadError::UnexpectedEof));
    assert_eq!(r.remaining(), 0);
}

#[test]
fn reads_from_empty_input_fail() {
    assert_eq!(read_u8(&mut Reader::new(Vec::new())), Err(ReadError::UnexpectedEof));
    assert_eq!(read_u32(&mut Reader::new(Vec::new())), Err(ReadError::UnexpectedEof));
    assert_eq!(read_u64(&mut Reader::new(Vec::new())), Err(ReadError::UnexpectedEof));
}

#[test]
fn reader_peek_and_advance() {
    let mut r = Reader::new(vec![10, 20, 30]);
    assert_eq!(r.peek(0), 10);
    assert_eq!(r.peek(2), 30);
    r.advance(2);
    assert_eq!(r.peek(0), 30);
    assert_eq!(r.remaining(), 1);
    r.drain();
    assert_eq!(r.remaining(), 0);
}

#[test]
fn writers_are_little_endian() {
    let mut w = vec![0xaa];
    write_u8(&mut w, 1);
    write_u16(&mut w, 0x0203);
    write_u32(&mut w, 65536);
    write_u64(&mut w, 0x0102_0304_0506_0708);
    assert_eq!(
        w,
        vec![0xaa, 1, 3, 2, 0, 0, 1, 0, 8, 7, 6, 5, 4, 3, 2, 1]
    );
}

#[test]
fn writers_agree_with_std() {
    for x in [0u64, 1, 255, 256, 0xdead_beef, u64::MAX, 0x8000_0000_0000_0000] {
        let mut w = Vec::new();
        write_u64(&mut w, x);
        assert_eq!(w, x.to_le_bytes().to_vec());
        let mut w = Vec::new();
        write_u32(&mut w, x as u32);
        assert_eq!(w, (x as u32).to_le_bytes().to_vec());
        let mut w = Vec::new();
        write_u16(&mut w, x as u16);
        assert_eq!(w, (x as u16).to_le_bytes().to_vec());
    }
}

#[test]
fn what_is_written_is_read_back() {
    let mut w = Vec::new();
    write_u8(&mut w, 200);
    write_u32(&mut w, 4_000_000_000);
    write_u64(&mut w, 18_000_000_000_000_000_000);
    let mut r = Reader::new(w);
    assert_eq!(read_u8(&mut r), Ok(200));
    assert_eq!(read_u32(&mut r), Ok(4_000_000_000));
    assert_eq!(read_u64(&mut r), Ok(18_000_000_000_000_000_000));
    assert_eq!(r.remaining(), 0);
}
