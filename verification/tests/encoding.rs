use ledger_export::encoding::{write_varint, read_varint};

#[test]
fn varint_known_encodings() {
    let mut buf = Vec::new();
    write_varint(0, &mut buf);
    write_varint(127, &mut buf);
    write_varint(128, &mut buf);
    write_varint(300, &mut buf);
    assert_eq!(buf, vec![0u8, 127, 0x80, 0x01, 0xAC, 0x02]);
}

#[test]
fn varint_round_trip() {
    for v in [0u64, 1, 127, 128, 255, 300, 16384, u64::MAX] {
        let mut buf = Vec::new();
        write_varint(v, &mut buf);
        let (back, next) = read_varint(&buf, 0).expect("valid varint");
        assert_eq!(back, v);
        assert_eq!(next, buf.len());
    }
}

#[test]
fn varint_truncated_fails() {
    assert_eq!(read_varint(&vec![0x80u8], 0), None);
    assert_eq!(read_varint(&Vec::new(), 0), None);
}
