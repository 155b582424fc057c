use serde_device_tree::ser::string_block::StringBlock;

#[test]
fn new_block_is_empty() {
    let block = StringBlock::new(Some(vec![0u8; 16]), 0);
    assert_eq!(block.end(), 0);
    assert_eq!(block.data().unwrap(), &[0u8; 16][..]);
    let measuring = StringBlock::new(None, 5);
    assert_eq!(measuring.end(), 5);
    assert!(measuring.data().is_none());
}

#[test]
fn insert_str_appends_name_and_nul() {
    let mut block = StringBlock::new(Some(vec![0xaa; 16]), 0);
    assert_eq!(block.insert_str("reg"), 0);
    assert_eq!(block.insert_str("compatible"), 4);
    assert_eq!(block.end(), 15);
    let data = block.data().unwrap();
    assert_eq!(&data[..15], b"reg\0compatible\0");
    assert_eq!(data[15], 0xaa);
}

#[test]
fn insert_str_starts_at_given_end() {
    let mut block = StringBlock::new(Some(vec![0xaa; 8]), 3);
    assert_eq!(block.insert_str("ab"), 3);
    assert_eq!(block.end(), 6);
    assert_eq!(block.data().unwrap(), &[0xaa, 0xaa, 0xaa, b'a', b'b', 0, 0xaa, 0xaa][..]);
}

#[test]
fn get_str_by_offset_reads_back_inserted_strings() {
    let mut block = StringBlock::new(Some(vec![0; 32]), 0);
    let reg = block.insert_str("reg");
    let model = block.insert_str("model");
    assert_eq!(block.get_str_by_offset(reg), ("reg", 4));
    assert_eq!(block.get_str_by_offset(model), ("model", 10));
}

#[test]
fn get_str_by_offset_from_the_middle_of_a_string() {
    let mut block = StringBlock::new(Some(vec![0; 16]), 0);
    block.insert_str("device_type");
    assert_eq!(block.get_str_by_offset(7), ("type", 12));
}

#[test]
fn get_str_by_offset_reads_utf8() {
    let mut block = StringBlock::new(Some(vec![0; 16]), 0);
    let at = block.insert_str("größe");
    assert_eq!(block.get_str_by_offset(at), ("größe", 8));
}

#[test]
fn find_or_insert_finds_existing_name() {
    let mut block = StringBlock::new(Some(vec![0; 32]), 0);
    let a = block.find_or_insert("reg");
    let b = block.find_or_insert("compatible");
    let end = block.end();
    assert_eq!(block.find_or_insert("reg"), a);
    assert_eq!(block.find_or_insert("compatible"), b);
    assert_eq!(block.end(), end);
    assert_eq!((a, b, end), (0, 4, 15));
}

#[test]
fn find_or_insert_returns_latest_insertion() {
    let mut block = StringBlock::new(Some(vec![0; 32]), 0);
    assert_eq!(block.insert_str("x"), 0);
    assert_eq!(block.insert_str("x"), 2);
    assert_eq!(block.find_or_insert("x"), 2);
}

#[test]
fn find_or_insert_without_buffer_matches_with_buffer() {
    let names = ["reg", "compatible", "reg", "status", "compatible", "model"];
    let mut measuring = StringBlock::new(None, 0);
    let mut writing = StringBlock::new(Some(vec![0; 64]), 0);
    for name in names {
        assert_eq!(measuring.find_or_insert(name), writing.find_or_insert(name));
    }
    measuring.align();
    writing.align();
    assert_eq!(measuring.end(), writing.end());
    assert_eq!(writing.end(), 32);
}

#[test]
fn align_pads_with_nul_to_multiple_of_eight() {
    let mut block = StringBlock::new(Some(vec![0xaa; 16]), 0);
    block.insert_str("reg");
    block.align();
    assert_eq!(block.end(), 8);
    assert_eq!(&block.data().unwrap()[..9], b"reg\0\0\0\0\0\xaa");
}

#[test]
fn align_keeps_aligned_end() {
    let mut block = StringBlock::new(Some(vec![0xaa; 16]), 8);
    block.align();
    assert_eq!(block.end(), 8);
    assert_eq!(block.data().unwrap(), &[0xaa; 16][..]);
    let mut empty = StringBlock::new(None, 0);
    empty.align();
    assert_eq!(empty.end(), 0);
}

#[test]
fn align_without_buffer() {
    let mut block = StringBlock::new(None, 13);
    block.align();
    assert_eq!(block.end(), 16);
}

#[test]
fn find_or_insert_by_scan_walks_the_buffer() {
    let mut buf = b"reg\0model\0".to_vec();
    buf.resize(32, 0xaa);
    let mut block = StringBlock::new(Some(buf), 10);
    assert_eq!(block.find_or_insert_by_scan("model"), 4);
    assert_eq!(block.find_or_insert_by_scan("reg"), 0);
    assert_eq!(block.end(), 10);
    // "el" is only the tail of "model", not a string of its own.
    assert_eq!(block.find_or_insert_by_scan("el"), 10);
    assert_eq!(block.end(), 13);
    assert_eq!(&block.data().unwrap()[..14], b"reg\0model\0el\0\xaa");
    assert_eq!(block.find_or_insert_by_scan("el"), 10);
}

#[test]
fn find_or_insert_by_scan_agrees_with_find_or_insert() {
    let names = ["compatible", "reg", "compatible", "#address-cells", "reg"];
    let mut by_map = StringBlock::new(Some(vec![0; 64]), 0);
    let mut by_scan = StringBlock::new(Some(vec![0; 64]), 0);
    for name in names {
        assert_eq!(by_map.find_or_insert(name), by_scan.find_or_insert_by_scan(name));
    }
    assert_eq!(by_map.end(), by_scan.end());
    assert_eq!(by_map.data(), by_scan.data());
}
