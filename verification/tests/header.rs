use serde_device_tree::ser::{dtb_total_size, get_structure_padding, make_header, Error};

fn word(bytes: &[u8], at: usize) -> u32 {
    u32::from_be_bytes([bytes[at], bytes[at + 1], bytes[at + 2], bytes[at + 3]])
}

#[test]
fn padding_is_align_minus_remainder() {
    assert_eq!(get_structure_padding(0), 8);
    assert_eq!(get_structure_padding(1), 7);
    assert_eq!(get_structure_padding(7), 1);
    assert_eq!(get_structure_padding(8), 8);
    assert_eq!(get_structure_padding(61), 3);
}

#[test]
fn total_size_adds_header_map_blocks_and_padding() {
    assert_eq!(dtb_total_size(0, 0), 64);
    assert_eq!(dtb_total_size(100, 20), 184);
    assert_eq!(dtb_total_size(4, 1), 64);
}

#[test]
fn make_header_writes_big_endian_fields() {
    let mut buf = vec![0xaau8; 48];
    let total = make_header(&mut buf, 100, 20);
    assert_eq!(total, 184);
    assert_eq!(&buf[..4], &[0xd0, 0x0d, 0xfe, 0xed]);
    assert_eq!(word(&buf, 4), 184);
    assert_eq!(word(&buf, 8), 56);
    assert_eq!(word(&buf, 12), 156);
    assert_eq!(word(&buf, 16), 40);
    assert_eq!(word(&buf, 20), 17);
    assert_eq!(word(&buf, 24), 17);
    assert_eq!(word(&buf, 28), 0);
    assert_eq!(word(&buf, 32), 20);
    assert_eq!(word(&buf, 36), 100);
    assert_eq!(&buf[40..], &[0xaa; 8]);
}

#[test]
fn make_header_total_matches_probe() {
    for (s, t) in [(0u32, 0u32), (1, 2), (100, 20), (4096, 333), (0x10_0000, 7)] {
        let mut buf = vec![0u8; 40];
        let total = make_header(&mut buf, s, t);
        assert_eq!(total, dtb_total_size(s as usize, t as usize));
        assert_eq!(total % 8, 0);
        assert_eq!(word(&buf, 4) as usize, total);
    }
}

#[test]
fn error_has_unknown_variant() {
    let e = Error::Unknown;
    assert_eq!(format!("{:?}", e), "Unknown");
}
