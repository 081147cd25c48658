use classfile::classfile::ClassError;
use classfile::io::BlockReader;
use classfile::io::ClassWriter;

fn round_trip_bytes(write: impl FnOnce(&mut ClassWriter)) -> BlockReader {
    let mut w = ClassWriter::new();
    write(&mut w);
    BlockReader::new(w.target)
}

#[test]
fn u8_round_trip() {
    for x in [0u8, 1, 0x7F, 0xFF] {
        let mut r = round_trip_bytes(|w| {
            w.write_u8(x).unwrap();
        });
        assert_eq!(r.read_u8(), Ok(x));
    }
}

#[test]
fn u16_round_trip() {
    for x in [0u16, 1, 0xCAFE, 0xFFFF] {
        let mut r = round_trip_bytes(|w| {
            w.write_u16(x).unwrap();
        });
        assert_eq!(r.read_u16(), Ok(x));
    }
}

#[test]
fn u32_round_trip() {
    for x in [0u32, 1, 0xCAFEBABE, 0xFFFF_FFFF] {
        let mut r = round_trip_bytes(|w| {
            w.write_u32(x).unwrap();
        });
        assert_eq!(r.read_u32(), Ok(x));
    }
}

#[test]
fn u64_round_trip() {
    for x in [0u64, 1, 0x0123_4567_89AB_CDEF, 0xFFFF_FFFF_FFFF_FFFF] {
        let mut r = round_trip_bytes(|w| {
            w.write_u64(x).unwrap();
        });
        assert_eq!(r.read_u64(), Ok(x));
    }
}

#[test]
fn u16_big_endian_layout() {
    let mut w = ClassWriter::new();
    w.write_u16(0x1234).unwrap();
    assert_eq!(w.target, vec![0x12, 0x34]);
}

#[test]
fn u32_big_endian_layout() {
    let mut w = ClassWriter::new();
    w.write_u32(0xCAFEBABE).unwrap();
    assert_eq!(w.target, vec![0xCA, 0xFE, 0xBA, 0xBE]);
}

#[test]
fn u64_big_endian_layout() {
    let mut w = ClassWriter::new();
    w.write_u64(0x0102_0304_0506_0708).unwrap();
    assert_eq!(w.target, vec![1, 2, 3, 4, 5, 6, 7, 8]);
}

#[test]
fn reads_consume_in_order() {
    let mut r = BlockReader::new(vec![0x01, 0x02, 0x03, 0x04, 0x05, 0x06, 0x07]);
    assert_eq!(r.read_u8(), Ok(0x01));
    assert_eq!(r.read_u16(), Ok(0x0203));
    assert_eq!(r.read_u32(), Ok(0x04050607));
}

#[test]
fn truncated_read_fails_without_partial_value() {
    let mut r = BlockReader::new(vec![0x12]);
    assert_eq!(r.read_u16(), Err(ClassError::TruncatedInput));
    assert_eq!(r.pos, 0);
    assert_eq!(r.read_u8(), Ok(0x12));
}

#[test]
fn truncated_u64_fails() {
    let mut r = BlockReader::new(vec![0, 1, 2, 3, 4, 5, 6]);
    assert_eq!(r.read_u64(), Err(ClassError::TruncatedInput));
    assert_eq!(r.read_u32(), Ok(0x00010203));
}
