use bl808_svd::assembler::{compute_extent, create_peripheral, extend_peripheral};
use bl808_svd::model::{
    AccessMode, BitRange, Dimension, ExtractError, Field, Peripheral, PeripheralEntry, Register,
    ValidateLevel,
};

fn reg(name: &[u8], offset: u32) -> Register {
    Register {
        name: name.to_vec(),
        address_offset: offset,
        fields: Vec::new(),
    }
}

fn field(name: &[u8], msb: u32, lsb: u32) -> Field {
    Field {
        name: name.to_vec(),
        bits: BitRange { msb, lsb },
        access: AccessMode::ReadWrite,
        description: None,
    }
}

#[test]
fn create_wraps_a_fragment_without_validation() {
    let p = create_peripheral(b"MJPEG".to_vec(), 0x3002_1000, vec![reg(b"A", 0)]);
    assert_eq!(p.name, b"MJPEG".to_vec());
    assert_eq!(p.base_address, 0x3002_1000);
    assert_eq!(p.registers.len(), 1);
}

#[test]
fn create_accepts_zero_registers() {
    let p = create_peripheral(b"STUB".to_vec(), 0x2001_0000, Vec::new());
    assert_eq!(p.registers.len(), 0);
}

#[test]
fn extend_concatenates_fragments_in_order() {
    let p = create_peripheral(b"DSP2".to_vec(), 0x3001_1000, vec![reg(b"A", 0), reg(b"B", 4)]);
    let mut entry = PeripheralEntry::Single(p);
    let r = extend_peripheral(&mut entry, vec![reg(b"C", 0x110), reg(b"A", 0)]);
    assert!(r.is_ok());
    match entry {
        PeripheralEntry::Single(p) => {
            // fragment order kept: no reordering and no deduplication
            let names: Vec<&[u8]> = p.registers.iter().map(|r| r.name.as_slice()).collect();
            assert_eq!(names, vec![&b"A"[..], &b"B"[..], &b"C"[..], &b"A"[..]]);
            assert_eq!(p.base_address, 0x3001_1000);
        }
        PeripheralEntry::Array(_, _) => panic!("extend must keep the variant"),
    }
}

#[test]
fn extend_refuses_an_array_peripheral() {
    let p = create_peripheral(b"IPC".to_vec(), 0x3000_5000, vec![reg(b"A", 0)]);
    let mut entry = PeripheralEntry::Array(p, Dimension { dim: 2, dim_increment: 0x1000 });
    let r = extend_peripheral(&mut entry, vec![reg(b"B", 4)]);
    assert_eq!(r.unwrap_err(), ExtractError::ArrayPeripheralNotSupported);
    match entry {
        PeripheralEntry::Array(p, d) => {
            assert_eq!(p.registers.len(), 1);
            assert_eq!(d.dim, 2);
        }
        PeripheralEntry::Single(_) => panic!("refused extension must leave the entry alone"),
    }
}

#[test]
fn extent_is_base_plus_highest_offset() {
    let p = create_peripheral(
        b"DSP2_MISC".to_vec(),
        0x3001_0000,
        vec![reg(b"A", 0x0), reg(b"B", 0x100), reg(b"C", 0x2FC)],
    );
    let (base, highest) = compute_extent(&p);
    assert_eq!(base, 0x3001_0000);
    assert_eq!(highest, 0x3001_02FC);
}

#[test]
fn extent_of_an_empty_peripheral_is_its_base() {
    let p = create_peripheral(b"STUB".to_vec(), 0x2001_0000, Vec::new());
    assert_eq!(compute_extent(&p), (0x2001_0000, 0x2001_0000));
}

#[test]
fn strict_field_validation_rejects_contradictory_bits() {
    let r = Field::build(
        b"F".to_vec(),
        BitRange { msb: 0, lsb: 3 },
        AccessMode::ReadWrite,
        None,
        ValidateLevel::Strict,
    );
    assert_eq!(r.unwrap_err(), ExtractError::ModelInvalid);
}

#[test]
fn weak_field_validation_preserves_defects() {
    let f = Field::build(
        b"F".to_vec(),
        BitRange { msb: 0, lsb: 3 },
        AccessMode::ReadWrite,
        None,
        ValidateLevel::Weak,
    )
    .unwrap();
    assert_eq!(f.bits.msb, 0);
    assert_eq!(f.bits.lsb, 3);
}

#[test]
fn strict_peripheral_validation_rejects_missing_name() {
    let r = Peripheral::build(Vec::new(), 0, Vec::new(), ValidateLevel::Strict);
    assert_eq!(r.unwrap_err(), ExtractError::ModelInvalid);
}

#[test]
fn bit_range_width_counts_inclusive_bounds() {
    assert_eq!(BitRange::from_msb_lsb(31, 16).width(), 16);
    assert_eq!(BitRange::from_msb_lsb(0, 0).width(), 1);
}

#[test]
fn overlapping_fields_are_detectable() {
    let clean = Register {
        name: b"R".to_vec(),
        address_offset: 0,
        fields: vec![field(b"A", 3, 0), field(b"B", 7, 4)],
    };
    assert!(!clean.has_overlapping_fields());
    let dirty = Register {
        name: b"R".to_vec(),
        address_offset: 0,
        fields: vec![field(b"A", 3, 0), field(b"B", 7, 3)],
    };
    assert!(dirty.has_overlapping_fields());
}
