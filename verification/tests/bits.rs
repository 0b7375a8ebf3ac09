use nameserver::bits::{pow2_u64, push_u16_be, push_u32_be, BitWriter};

#[test]
fn writer_packs_msb_first() {
    let mut w = BitWriter::new();
    // 1,0,1,0 0101 -> 0xA5
    w.push_bits(1, 1);
    w.push_bits(0, 1);
    w.push_bits(1, 1);
    w.push_bits(0, 1);
    w.push_bits(5, 4);
    assert_eq!(w.into_vec(), vec![0xA5]);
}

#[test]
fn writer_is_big_endian_across_bytes() {
    let mut w = BitWriter::new();
    w.push_bits(0x1234, 16);
    w.push_bits(0xAB, 8);
    assert_eq!(w.into_vec(), vec![0x12, 0x34, 0xAB]);
}

#[test]
fn writer_splits_fields_over_byte_boundaries() {
    let mut w = BitWriter::new();
    w.push_bits(1, 4);
    w.push_bits(0x23, 8);
    w.push_bits(4, 4);
    assert_eq!(w.into_vec(), vec![0x12, 0x34]);
}

#[test]
fn byte_helpers_write_big_endian() {
    let mut out = Vec::new();
    push_u16_be(&mut out, 0x0102);
    push_u32_be(&mut out, 0xDEADBEEF);
    push_u16_be(&mut out, 0);
    assert_eq!(out, vec![0x01, 0x02, 0xDE, 0xAD, 0xBE, 0xEF, 0x00, 0x00]);
}

#[test]
fn pow2_values() {
    assert_eq!(pow2_u64(0), 1);
    assert_eq!(pow2_u64(1), 2);
    assert_eq!(pow2_u64(10), 1024);
    assert_eq!(pow2_u64(63), 1u64 << 63);
}
