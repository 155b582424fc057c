use serde_device_tree::de_mut::reg::{Reg, RegConfig};

/// Big-endian cells, as a `reg` property holds them.
fn cells(values: &[u32]) -> Vec<u8> {
    let mut out = Vec::new();
    for v in values {
        out.extend_from_slice(&v.to_be_bytes());
    }
    out
}

fn cfg(address_cells: usize, size_cells: usize) -> RegConfig {
    RegConfig { address_cells, size_cells }
}

// The `reg` value of `/normal`: one entry, two address cells, one size cell.
fn normal_reg_value() -> Vec<u8> {
    cells(&[0x0, 0x5000_0000, 0x03f0_0000])
}

#[test]
fn test_normal_reg() {
    let data = normal_reg_value();
    let reg = Reg::new(&data, RegConfig::default());
    assert_eq!(reg.iter().next().unwrap().0, 1342177280..1408237568);
}

#[test]
fn test_normal_reg_node() {
    let data = normal_reg_value();
    let reg = Reg::new(&data, cfg(2, 1));
    assert_eq!(reg.iter().next().unwrap().0, 1342177280..1408237568);
}

#[test]
fn test_depper_normal_reg_node() {
    let data = normal_reg_value();
    let reg = Reg::new(&data, cfg(2, 1));
    assert_eq!(reg.iter().next().unwrap().0, 1342177280..1408237568);
}

#[test]
fn test_seq_reg_node() {
    let node1 = cells(&[0x0, 0x1, 0x1, 0x1]);
    let node2 = cells(&[0x0, 0x2, 0x0, 0x2]);
    let node3 = cells(&[0x0, 0x3, 0x3, 0x3]);
    let reg1 = Reg::new(&node1, cfg(2, 2));
    assert_eq!(reg1.iter().next().unwrap().0, 1..4294967298);
    let reg2 = Reg::new(&node2, cfg(2, 2));
    assert_eq!(reg2.iter().next().unwrap().0, 2..4);
    let reg3 = Reg::new(&node3, cfg(2, 2));
    assert_eq!(reg3.iter().next().unwrap().0, 3..12884901894);
}

#[test]
fn reg_iter_walks_every_entry_then_stops() {
    let data = cells(&[0x0, 0x1000, 0x10, 0x0, 0x2000, 0x20]);
    let reg = Reg::new(&data, cfg(2, 1));
    let mut iter = reg.iter();
    assert_eq!(iter.next().unwrap().0, 0x1000..0x1010);
    assert_eq!(iter.next().unwrap().0, 0x2000..0x2020);
    assert!(iter.next().is_none());
    assert!(iter.next().is_none());
}

#[test]
fn reg_iter_ignores_trailing_partial_entry() {
    let mut data = cells(&[0x7, 0x1]);
    data.extend_from_slice(&[0xff, 0xff, 0xff]);
    let reg = Reg::new(&data, cfg(1, 1));
    let mut iter = reg.iter();
    assert_eq!(iter.next().unwrap().0, 7..8);
    assert!(iter.next().is_none());
}

#[test]
fn reg_iter_on_empty_value_gives_nothing() {
    let data: Vec<u8> = Vec::new();
    let reg = Reg::new(&data, RegConfig::default());
    assert!(reg.iter().next().is_none());
}

#[test]
fn reg_single_cells() {
    let data = cells(&[0x8000_0000, 0x100]);
    let reg = Reg::new(&data, cfg(1, 1));
    assert_eq!(reg.iter().next().unwrap().0, 0x8000_0000..0x8000_0100);
}

#[test]
fn reg_address_keeps_low_64_bits() {
    // Three address cells: the top cell is shifted out of a 64-bit value.
    let data = cells(&[0xdead_beef, 0x1, 0x2, 0x10]);
    let reg = Reg::new(&data, cfg(3, 1));
    assert_eq!(reg.iter().next().unwrap().0, 0x1_0000_0002..0x1_0000_0012);
}

#[test]
fn reg_zero_address_cells() {
    let data = cells(&[0x40]);
    let reg = Reg::new(&data, cfg(0, 1));
    assert_eq!(reg.iter().next().unwrap().0, 0..0x40);
}

#[test]
fn reg_default_config() {
    let c = RegConfig::default();
    assert_eq!(c.address_cells, 2);
    assert_eq!(c.size_cells, 1);
}

#[test]
fn reg_debug_string_one_entry() {
    let data = normal_reg_value();
    let reg = Reg::new(&data, cfg(2, 1));
    assert_eq!(reg.to_debug_string(), "[0x50000000..0x53f00000]");
}

#[test]
fn reg_debug_string_matches_std_formatting() {
    let data = cells(&[0x0, 0x0, 0x1, 0xabc, 0xffff_ffff, 0x0]);
    let reg = Reg::new(&data, cfg(1, 1));
    let expected = format!("[{:#x?}, {:#x?}, {:#x?}]", 0usize..0usize, 1usize..0xabdusize, 0xffff_ffffusize..0xffff_ffffusize);
    assert_eq!(reg.to_debug_string(), expected);
}

#[test]
fn reg_debug_string_empty() {
    let data: Vec<u8> = Vec::new();
    let reg = Reg::new(&data, RegConfig::default());
    assert_eq!(reg.to_debug_string(), "[]");
}

#[test]
fn reg_as_bytes_gives_value_back() {
    let data = normal_reg_value();
    let reg = Reg::new(&data, RegConfig::default());
    assert_eq!(reg.as_bytes(), &data[..]);
}

#[test]
fn reg_region_clone_keeps_range() {
    let data = cells(&[0x5, 0x6]);
    let reg = Reg::new(&data, cfg(1, 1));
    let r = reg.iter().next().unwrap();
    assert_eq!(r.clone().0, r.0);
    assert_eq!(r.0, 5..11);
}

#[test]
fn reg_is_decodable() {
    let data = normal_reg_value();
    assert!(Reg::new(&data, cfg(2, 1)).is_decodable());
    let empty: Vec<u8> = Vec::new();
    assert!(Reg::new(&empty, cfg(2, 1)).is_decodable());
    // Entries of no cells never end.
    assert!(!Reg::new(&data, cfg(0, 0)).is_decodable());
    // The end of the range does not fit a usize.
    let overflow = cells(&[0xffff_ffff, 0xffff_ffff, 0x1]);
    assert!(!Reg::new(&overflow, cfg(2, 1)).is_decodable());
    // The number of cells does not fit.
    assert!(!Reg::new(&data, cfg(usize::MAX, 1)).is_decodable());
}
