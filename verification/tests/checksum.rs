use rjmp_stm32_flash::fletcher16::Fletcher16;
use rjmp_stm32_flash::le_bytes::{read_le16, read_le32, split_le16, split_le32};

#[test]
fn checksum_of_nothing_is_zero() {
    assert_eq!(Fletcher16::compute(&[]), 0);
    assert_eq!(Fletcher16::new().value(), 0);
}

#[test]
fn checksum_holds_both_sums() {
    assert_eq!(Fletcher16::compute(&[1, 2, 3]), 0x060a);
}

#[test]
fn checksum_sums_wrap_around() {
    assert_eq!(Fletcher16::compute(&[0xff, 0x02]), 0x0100);
    let data: Vec<u8> = (0..100).collect();
    assert_eq!(Fletcher16::compute(&data), 0x56fa);
}

#[test]
fn checksum_can_be_pushed_in_pieces() {
    let data: Vec<u8> = (0..100).map(|i: u8| i.wrapping_mul(37)).collect();
    for split in 0..data.len() {
        let mut chk = Fletcher16::new();
        chk.push_slice(&data[..split]);
        chk.push_byte(data[split]);
        chk.push_slice(&data[split + 1..]);
        assert_eq!(chk.value(), Fletcher16::compute(&data));
    }
}

#[test]
fn checksum_detects_every_changed_byte() {
    let data = [3u8, 1, 4, 1, 5, 9, 2, 6];
    for i in 0..data.len() {
        for byte in 0..=255u8 {
            let mut changed = data;
            changed[i] = byte;
            assert_eq!(
                Fletcher16::compute(&changed) == Fletcher16::compute(&data),
                byte == data[i]
            );
        }
    }
}

#[test]
fn numbers_are_stored_least_significant_byte_first() {
    assert_eq!(split_le16(0x1234), [0x34, 0x12]);
    assert_eq!(split_le32(0xAAAA_CAFE), [0xFE, 0xCA, 0xAA, 0xAA]);
    assert_eq!(read_le16(&[0, 0x34, 0x12], 1), 0x1234);
    assert_eq!(read_le32(&[0xFE, 0xCA, 0xAA, 0xAA], 0), 0xAAAA_CAFE);
}

#[test]
fn numbers_read_back_from_their_bytes() {
    for value in [0u32, 1, 0xff, 0x100, 0xffff, 0x1_0000, 0x1234_5678, u32::MAX] {
        assert_eq!(read_le32(&split_le32(value), 0), value);
        assert_eq!(split_le32(value), value.to_le_bytes());
        let half = value as u16;
        assert_eq!(read_le16(&split_le16(half), 0), half);
        assert_eq!(split_le16(half), half.to_le_bytes());
    }
}
