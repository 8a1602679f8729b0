use bl808_svd::c_header::{
    append_registers_from_c_header, peripheral_from_c_header, registers_from_c_header,
};
use bl808_svd::doc_rst::{parse_hex_or_zero, parse_u32_or_zero, peripheral_from_doc_rst};
use bl808_svd::model::{AccessMode, ExtractError, ParseRule, Peripheral};
use bl808_svd::text::format_hex;

const HEADER: &str = "\
/* banner comment that the grammar ignores */
#include \"bl808.h\"

struct  ctrl_reg {
    /* 0x10 : CTRL */
    union {
        struct {
            uint32_t EN                          :  1; /* [    0],        RW,        0x0 */
            uint32_t MODE                        :  2; /* [ 2: 1],        rw,        0x0 */
            uint32_t reserved_3_31               : 29; /* [31: 3],       rsvd,        0x0 */
        }BF;
        uint32_t WORD;
    } CTRL;

    /* 0x14  reserved */
    uint8_t RESERVED0x14[4];

    /* 0x18 : STATUS */
    union {
        struct {
            uint32_t BUSY                        :  1; /* [    0],         RO,        0x0 */
        }BF;
        uint32_t WORD;
    } STATUS;
};
";

#[test]
fn header_fragment_single_register_and_field() {
    // offset=0x10, name CTRL, field EN covering bit 0 with access RW
    let regs = registers_from_c_header(HEADER.as_bytes()).unwrap();
    assert_eq!(regs.len(), 2);
    assert_eq!(regs[0].name, b"CTRL".to_vec());
    assert_eq!(regs[0].address_offset, 0x10);
    let en = &regs[0].fields[0];
    assert_eq!(en.name, b"EN".to_vec());
    assert_eq!(en.bits.msb, 0);
    assert_eq!(en.bits.lsb, 0);
    assert_eq!(en.access, AccessMode::ReadWrite);
    assert_eq!(en.description, None);
}

#[test]
fn header_field_order_is_file_row_order() {
    let regs = registers_from_c_header(HEADER.as_bytes()).unwrap();
    let names: Vec<&[u8]> = regs[0].fields.iter().map(|f| f.name.as_slice()).collect();
    assert_eq!(names, vec![&b"EN"[..], &b"MODE"[..], &b"reserved_3_31"[..]]);
    assert_eq!(regs[0].fields[1].bits.msb, 2);
    assert_eq!(regs[0].fields[1].bits.lsb, 1);
    assert_eq!(regs[0].fields[2].access, AccessMode::Unspecified);
}

#[test]
fn header_reserved_registers_are_dropped() {
    let regs = registers_from_c_header(HEADER.as_bytes()).unwrap();
    // 0x14 is a reserved entry: recognized, then dropped
    assert_eq!(regs[1].name, b"STATUS".to_vec());
    assert_eq!(regs[1].address_offset, 0x18);
    assert_eq!(regs[1].fields[0].access, AccessMode::ReadOnly);
}

#[test]
fn header_peripheral_carries_name_and_base() {
    let p = peripheral_from_c_header(HEADER.as_bytes(), 0x3001_0000, b"CTRL".to_vec()).unwrap();
    assert_eq!(p.name, b"CTRL".to_vec());
    assert_eq!(p.base_address, 0x3001_0000);
    assert_eq!(p.registers.len(), 2);
}

#[test]
fn header_unknown_access_mode_fails_whole_file() {
    let text = "\
struct  xx_reg {
    /* 0x0 : A */
    uint32_t F : 1; /* [    0],       BOGUS,        0x0 */
};
";
    let r = registers_from_c_header(text.as_bytes());
    assert_eq!(r.unwrap_err(), ExtractError::UnknownAccessMode);
}

#[test]
fn header_contradictory_bits_fail_strict_validation() {
    // lsb 3 > msb 0: strict field validation rejects the model value
    let text = "\
struct  xx_reg {
    /* 0x0 : A */
    uint32_t F : 4; /* [ 0: 3],        RW,        0x0 */
};
";
    let r = registers_from_c_header(text.as_bytes());
    assert_eq!(r.unwrap_err(), ExtractError::ModelInvalid);
}

#[test]
fn header_without_struct_declaration_is_malformed() {
    let text = "/* 0x0 : A */\n";
    let r = registers_from_c_header(text.as_bytes());
    assert_eq!(
        r.unwrap_err(),
        ExtractError::MalformedHeader(ParseRule::Peripheral)
    );
}

#[test]
fn header_field_row_outside_register_is_malformed() {
    let text = "\
struct  xx_reg {
    uint32_t F : 1; /* [    0],        RW,        0x0 */
};
";
    let r = registers_from_c_header(text.as_bytes());
    assert_eq!(
        r.unwrap_err(),
        ExtractError::MalformedHeader(ParseRule::Registers)
    );
}

#[test]
fn header_bad_offset_is_malformed() {
    let text = "\
struct  xx_reg {
    /* 0xZZ : A */
};
";
    let r = registers_from_c_header(text.as_bytes());
    assert_eq!(
        r.unwrap_err(),
        ExtractError::MalformedHeader(ParseRule::RegisterOffset)
    );
}

#[test]
fn header_appending_keeps_existing_registers() {
    let mut p = peripheral_from_c_header(HEADER.as_bytes(), 0x3001_1000, b"DSP2".to_vec()).unwrap();
    let more = "\
struct  front_reg {
    /* 0x110 : FRONT */
    uint32_t GAIN : 8; /* [ 7: 0],        rw,        0x0 */
};
";
    append_registers_from_c_header(more.as_bytes(), &mut p).unwrap();
    assert_eq!(p.registers.len(), 3);
    assert_eq!(p.registers[0].name, b"CTRL".to_vec());
    assert_eq!(p.registers[1].name, b"STATUS".to_vec());
    assert_eq!(p.registers[2].name, b"FRONT".to_vec());
    assert_eq!(p.registers[2].address_offset, 0x110);
}

#[test]
fn header_append_failure_leaves_peripheral_unchanged() {
    let mut p = peripheral_from_c_header(HEADER.as_bytes(), 0x3001_1000, b"DSP2".to_vec()).unwrap();
    let r = append_registers_from_c_header(b"no struct here\n", &mut p);
    assert_eq!(
        r.unwrap_err(),
        ExtractError::MalformedHeader(ParseRule::Peripheral)
    );
    assert_eq!(p.registers.len(), 2);
}

const DOC: &str = "\
STAT
----

Address: 0x2000A000

+-------+------+------+-------+-------------+
| Bit   | Name | Type | Reset | Description |
+=======+======+======+=======+=============+
| 31:16 | rsvd | rsvd | 16'h0 | reserved    |
+-------+------+------+-------+-------------+
| 15:0  | data | r/w  | 16'h0 | stat data   |
+-------+------+------+-------+-------------+

FIFO
----

Address: 0x2000A004

+-------+------+------+-------+-------------+
| Bit   | Name | Type | Reset | Description |
+=======+======+======+=======+=============+
| 7:0   | cnt  | roc  | 8'd0  | entry count |
+-------+------+------+-------+-------------+
";

#[test]
fn doc_table_first_register_offset_is_zero() {
    // title STAT at address 0x2000A000, first register: offset 0
    let p = peripheral_from_doc_rst(DOC.as_bytes(), b"UART0".to_vec(), None).unwrap();
    assert_eq!(p.name, b"UART0".to_vec());
    assert_eq!(p.base_address, 0x2000_A000);
    assert_eq!(p.registers.len(), 2);
    assert_eq!(p.registers[0].name, b"STAT".to_vec());
    assert_eq!(p.registers[0].address_offset, 0);
    assert_eq!(p.registers[1].name, b"FIFO".to_vec());
    assert_eq!(p.registers[1].address_offset, 4);
}

#[test]
fn doc_table_fields_come_in_reversed_row_order() {
    let p = peripheral_from_doc_rst(DOC.as_bytes(), b"UART0".to_vec(), None).unwrap();
    let stat = &p.registers[0];
    assert_eq!(stat.fields.len(), 2);
    // table rows listed rsvd(31:16) first, data(15:0) second; storage is reversed
    assert_eq!(stat.fields[0].name, b"data".to_vec());
    assert_eq!(stat.fields[0].bits.msb, 15);
    assert_eq!(stat.fields[0].bits.lsb, 0);
    assert_eq!(stat.fields[0].access, AccessMode::ReadWrite);
    assert_eq!(stat.fields[0].description, Some(b"stat data".to_vec()));
    assert_eq!(stat.fields[1].name, b"rsvd".to_vec());
    assert_eq!(stat.fields[1].access, AccessMode::Unspecified);
}

#[test]
fn doc_base_override_changes_only_base_address() {
    let p0 = peripheral_from_doc_rst(DOC.as_bytes(), b"UART1".to_vec(), None).unwrap();
    let p1 =
        peripheral_from_doc_rst(DOC.as_bytes(), b"UART1".to_vec(), Some(0x2000_A100)).unwrap();
    assert_eq!(p1.base_address, 0x2000_A100);
    assert_eq!(p0.registers.len(), p1.registers.len());
    for (a, b) in p0.registers.iter().zip(p1.registers.iter()) {
        assert_eq!(a.name, b.name);
        assert_eq!(a.address_offset, b.address_offset);
    }
}

#[test]
fn doc_continuation_row_joins_previous_description() {
    let text = "\
CFG
---

Address: 0x2000B000

+------+------+------+-------+-------------+
| Bit  | Name | Type | Reset | Description |
+======+======+======+=======+=============+
| 3:0  | prd  | r/w  | 4'h0  | bit period  |
+------+------+------+-------+-------------+
| (unit: clock cycle)                      |
+------+------+------+-------+-------------+
";
    let p = peripheral_from_doc_rst(text.as_bytes(), b"CFG".to_vec(), None).unwrap();
    let f = &p.registers[0].fields[0];
    assert_eq!(f.name, b"prd".to_vec());
    assert_eq!(
        f.description,
        Some(b"bit period\n(unit: clock cycle)".to_vec())
    );
}

#[test]
fn doc_continuation_row_before_any_field_is_dangling() {
    let text = "\
CFG
---

Address: 0x2000B000

+------+------+------+-------+-------------+
| Bit  | Name | Type | Reset | Description |
+======+======+======+=======+=============+
| stray continuation                       |
+------+------+------+-------+-------------+
";
    let r = peripheral_from_doc_rst(text.as_bytes(), b"CFG".to_vec(), None);
    assert_eq!(r.unwrap_err(), ExtractError::DanglingContinuationRow);
}

#[test]
fn doc_unknown_access_mode_fails_whole_file() {
    let text = "\
CFG
---

Address: 0x2000B000

+------+------+------+-------+-------------+
| Bit  | Name | Type | Reset | Description |
+======+======+======+=======+=============+
| 3:0  | prd  | wat  | 4'h0  | bit period  |
+------+------+------+-------+-------------+
";
    let r = peripheral_from_doc_rst(text.as_bytes(), b"CFG".to_vec(), None);
    assert_eq!(r.unwrap_err(), ExtractError::UnknownAccessMode);
}

#[test]
fn doc_row_with_unrecognized_cell_count_is_malformed() {
    let text = "\
CFG
---

Address: 0x2000B000

+------+------+
| Bit  | Name |
+======+======+
| 3:0  | prd  |
+------+------+
";
    let r = peripheral_from_doc_rst(text.as_bytes(), b"CFG".to_vec(), None);
    assert_eq!(r.unwrap_err(), ExtractError::MalformedTable(ParseRule::Row));
}

#[test]
fn doc_bad_address_is_malformed() {
    let text = "\
CFG
---

Address: 0xNOPE
";
    let r = peripheral_from_doc_rst(text.as_bytes(), b"CFG".to_vec(), None);
    assert_eq!(
        r.unwrap_err(),
        ExtractError::MalformedTable(ParseRule::Address)
    );
}

#[test]
fn doc_empty_peripheral_name_fails_strict_validation() {
    let r = peripheral_from_doc_rst(DOC.as_bytes(), Vec::new(), None);
    assert_eq!(r.unwrap_err(), ExtractError::ModelInvalid);
}

#[test]
fn doc_empty_document_is_a_zero_register_peripheral() {
    let p = peripheral_from_doc_rst(b"", b"EMPTY".to_vec(), None).unwrap();
    assert_eq!(p.registers.len(), 0);
    assert_eq!(p.base_address, 0);
}

#[test]
fn doc_vsync_hsync_prose_is_not_a_cell_delimiter() {
    let text = "\
CFG
---

Address: 0x2000B000

+------+------+------+-------+----------------------+
| Bit  | Name | Type | Reset | Description          |
+======+======+======+=======+======================+
| 0    | pol  | r/w  | 1'b0  | Vsync|Hsync polarity |
+------+------+------+-------+----------------------+
";
    let p = peripheral_from_doc_rst(text.as_bytes(), b"CFG".to_vec(), None).unwrap();
    let f = &p.registers[0].fields[0];
    assert_eq!(f.description, Some(b"Vsync or Hsync polarity".to_vec()));
}

#[test]
fn doc_single_bit_position_stands_for_both_bounds() {
    let text = "\
CFG
---

Address: 0x2000B000

+------+------+------+-------+-------------+
| Bit  | Name | Type | Reset | Description |
+======+======+======+=======+=============+
| 5    | en   | w1c  | 1'b0  | enable      |
+------+------+------+-------+-------------+
";
    let p = peripheral_from_doc_rst(text.as_bytes(), b"CFG".to_vec(), None).unwrap();
    let f = &p.registers[0].fields[0];
    assert_eq!(f.bits.msb, 5);
    assert_eq!(f.bits.lsb, 5);
    assert_eq!(f.access, AccessMode::WriteOnce);
}

#[test]
fn doc_write_token_is_write_once() {
    let text = "\
CFG
---

Address: 0x2000B000

+------+------+------+-------+-------------+
| Bit  | Name | Type | Reset | Description |
+======+======+======+=======+=============+
| 0    | go   | w    | 1'b0  | start       |
+------+------+------+-------+-------------+
";
    let p = peripheral_from_doc_rst(text.as_bytes(), b"CFG".to_vec(), None).unwrap();
    // the documentation-table token `w` is write-once, unlike the header table
    assert_eq!(p.registers[0].fields[0].access, AccessMode::WriteOnce);
}

#[test]
fn doc_address_without_a_title_is_malformed() {
    let text = "Address: 0x2000B000\n";
    let r = peripheral_from_doc_rst(text.as_bytes(), b"CFG".to_vec(), None);
    assert_eq!(
        r.unwrap_err(),
        ExtractError::MalformedTable(ParseRule::Title)
    );
}

#[test]
fn doc_sized_literal_address_takes_digits_after_separator() {
    let text = "\
CFG
---

Address: 32'h2000B000

+------+------+--------+-------+-------------+
| Bit  | Name | Type   | Reset | Description |
+======+======+========+=======+=============+
| 1:0  | sel  | roc/rw | 2'b0  | selector    |
+------+------+--------+-------+-------------+
| 2    | ini  | HwInit | 1'b0  | initial     |
+------+------+--------+-------+-------------+
";
    let p = peripheral_from_doc_rst(text.as_bytes(), b"CFG".to_vec(), None).unwrap();
    assert_eq!(p.base_address, 0x2000_B000);
    // reversed row order: HwInit row first
    assert_eq!(p.registers[0].fields[0].access, AccessMode::ReadOnly);
    assert_eq!(p.registers[0].fields[1].access, AccessMode::ReadWrite);
}

#[test]
fn header_field_width_must_be_a_small_decimal() {
    let text = "\
struct  xx_reg {
    /* 0x0 : A */
    uint32_t F : 999; /* [    0],        RW,        0x0 */
};
";
    let r = registers_from_c_header(text.as_bytes());
    assert_eq!(
        r.unwrap_err(),
        ExtractError::MalformedHeader(ParseRule::FieldWidth)
    );
}

#[test]
fn header_write_tokens_map_to_their_modes() {
    let text = "\
struct  xx_reg {
    /* 0x0 : A */
    uint32_t F : 1; /* [    0],         WO,        0x0 */
    uint32_t G : 1; /* [    1],        w1c,        0x0 */
    uint32_t H : 1; /* [    2],        w1p,        0x0 */
};
";
    let regs = registers_from_c_header(text.as_bytes()).unwrap();
    assert_eq!(regs[0].fields[0].access, AccessMode::WriteOnly);
    assert_eq!(regs[0].fields[1].access, AccessMode::WriteOnce);
    assert_eq!(regs[0].fields[2].access, AccessMode::WriteOnce);
}

#[test]
fn hex_offsets_equal_the_value_of_their_text() {
    // parse the hexadecimal text, format the value back: same digits
    assert_eq!(parse_hex_or_zero(b"2000A000"), 0x2000_A000);
    assert_eq!(parse_hex_or_zero(b"32'h2000A000"), 0x2000_A000);
    assert_eq!(parse_hex_or_zero(b""), 0);
    assert_eq!(format_hex(0x10), b"10".to_vec());
    assert_eq!(format_hex(0), b"0".to_vec());
    assert_eq!(format_hex(0x2FC), b"2fc".to_vec());
    assert_eq!(parse_hex_or_zero(&format_hex(0x1234_ABCD)), 0x1234_ABCD);
    // case aside: an uppercase numeral formats back to its lowercase spelling
    assert_eq!(format_hex(parse_hex_or_zero(b"2FC")), b"2fc".to_vec());
    assert_eq!(format_hex(parse_hex_or_zero(b"2fc")), b"2fc".to_vec());
}

#[test]
fn header_register_may_have_zero_fields() {
    let text = "\
struct  xx_reg {
    /* 0x0 : A */
    /* 0x4 : B */
};
";
    let regs = registers_from_c_header(text.as_bytes()).unwrap();
    assert_eq!(regs.len(), 2);
    assert_eq!(regs[0].fields.len(), 0);
    assert_eq!(regs[1].name, b"B".to_vec());
}

#[test]
fn doc_last_prose_line_before_address_is_the_title() {
    let text = "\
some section heading
CFG
---

Address: 0x2000B000
";
    let p = peripheral_from_doc_rst(text.as_bytes(), b"P".to_vec(), None).unwrap();
    assert_eq!(p.registers.len(), 1);
    assert_eq!(p.registers[0].name, b"CFG".to_vec());
    assert_eq!(p.registers[0].fields.len(), 0);
}

#[test]
fn decimal_cells_parse_their_value_or_zero() {
    assert_eq!(parse_u32_or_zero(b"31"), 31);
    assert_eq!(parse_u32_or_zero(b""), 0);
    assert_eq!(parse_u32_or_zero(b"0"), 0);
}

fn peripheral_is_send(_p: &Peripheral) {}

#[test]
fn peripherals_are_plain_owned_values() {
    let p = peripheral_from_doc_rst(DOC.as_bytes(), b"UART0".to_vec(), None).unwrap();
    peripheral_is_send(&p);
}
