use ici_core::mf4::blocks::channel_block::{ChannelBlock, DataType};
use ici_core::mf4::blocks::channel_group_block::ChannelGroupBlock;
use ici_core::mf4::blocks::conversion::{ConversionBlock, ConversionType};
use ici_core::mf4::blocks::data_list_block::DataListBlock;
use ici_core::mf4::blocks::header::{BlockHeader, ID_CN, ID_DL};
use ici_core::mf4::blocks::text_block::read_string_block;
use ici_core::mf4::convert::{column_is_numeric, primary_group_index};
use ici_core::mf4::blocks::data_group_block::DataGroupBlock;
use ici_core::mf4::error::{LayoutProblem, MdfError};
use ici_core::mf4::parsing::raw_channel::RawChannel;
use ici_core::mf4::parsing::raw_channel_group::RawChannelGroup;
use ici_core::mf4::parsing::raw_data_group::RawDataGroup;
use ici_core::mf4::parsing::decoder::{check_value_validity, decode_channel_value, decode_numeric_value, DecodedValue};

fn block(id: &[u8; 4], links: &[u64], data: &[u8]) -> Vec<u8> {
    let mut b = Vec::new();
    b.extend_from_slice(id);
    b.extend_from_slice(&[0, 0, 0, 0]);
    let len = 24 + 8 * links.len() + data.len();
    b.extend_from_slice(&(len as u64).to_le_bytes());
    b.extend_from_slice(&(links.len() as u64).to_le_bytes());
    for l in links {
        b.extend_from_slice(&l.to_le_bytes());
    }
    b.extend_from_slice(data);
    b
}

fn channel(data_type: DataType, byte_offset: u32, bit_offset: u8, bit_count: u32) -> ChannelBlock {
    ChannelBlock {
        header: BlockHeader { id: ID_CN, reserved0: 0, block_len: 160, links_nr: 8 },
        next_ch_addr: 0,
        component_addr: 0,
        name_addr: 0,
        source_addr: 0,
        conversion_addr: 0,
        data: 0,
        unit_addr: 0,
        comment_addr: 0,
        channel_type: 0,
        sync_type: 0,
        data_type,
        bit_offset,
        byte_offset,
        bit_count,
        flags: 0,
        pos_invalidation_bit: 0,
        precision: 0,
        attachment_nr: 0,
    }
}

#[test]
fn channel_group_block_roundtrips() {
    let mut cg = ChannelGroupBlock::default();
    cg.next_cg_addr = 0x1000;
    cg.cycles_nr = 42;
    cg.samples_byte_nr = 12;
    cg.record_id = 7;
    let bytes = cg.to_bytes().unwrap();
    assert_eq!(bytes.len(), 104);
    assert_eq!(&bytes[0..4], b"##CG");
    let back = ChannelGroupBlock::from_bytes(&bytes).unwrap();
    assert_eq!(back.next_cg_addr, 0x1000);
    assert_eq!(back.cycles_nr, 42);
    assert_eq!(back.samples_byte_nr, 12);
    assert_eq!(back.record_id, 7);
    assert_eq!(back.header, cg.header);
}

#[test]
fn data_list_equal_length_roundtrips() {
    let dl = DataListBlock::new_equal(vec![100, 200, 300], 64);
    assert_eq!(dl.header.id, ID_DL);
    assert_eq!(dl.header.links_nr, 4);
    assert_eq!(dl.data_block_nr, 3);
    let bytes = dl.to_bytes().unwrap();
    assert_eq!(bytes.len() as u64, dl.header.block_len);
    let back = DataListBlock::from_bytes(&bytes).unwrap();
    assert_eq!(back.data_links, vec![100, 200, 300]);
    assert_eq!(back.flags, 1);
    assert_eq!(back.data_block_len, Some(64));
    assert!(back.offsets.is_none());
    assert_eq!(back.next, 0);
}

#[test]
fn data_list_variable_length_roundtrips() {
    let dl = DataListBlock::new_variable(vec![10, 20], vec![0, 50]);
    let bytes = dl.to_bytes().unwrap();
    let back = DataListBlock::from_bytes(&bytes).unwrap();
    assert_eq!(back.data_links, vec![10, 20]);
    assert_eq!(back.flags, 0);
    assert_eq!(back.data_block_nr, 2);
    assert_eq!(back.offsets, Some(vec![0, 50]));
    assert!(back.data_block_len.is_none());
}

#[test]
fn data_list_to_bytes_checks_its_header() {
    let mut dl = DataListBlock::new_equal(vec![1, 2], 8);
    dl.header.links_nr = 9;
    match dl.to_bytes() {
        Err(MdfError::BlockSerializationError(LayoutProblem::LinksNrMismatch { header, actual })) => {
            assert_eq!((header, actual), (9, 3));
        }
        other => panic!("unexpected {other:?}"),
    }
}

#[test]
fn data_list_without_links_is_refused() {
    let bytes = block(b"##DL", &[], &[0; 8]);
    assert!(matches!(
        DataListBlock::from_bytes(&bytes),
        Err(MdfError::BlockSerializationError(LayoutProblem::NoLinks))
    ));
}

#[test]
fn text_block_reads_up_to_its_nul() {
    let mut file = vec![0u8; 8];
    file.extend(block(b"##TX", &[], b"volts\0pad"));
    assert_eq!(read_string_block(&file, 8).unwrap(), Some("volts".to_string()));
    assert_eq!(read_string_block(&file, 0).unwrap(), None);
    assert!(matches!(read_string_block(&file, 1000), Err(MdfError::TooShortBuffer { .. })));
}

fn conversion_bytes(cc_type: u8, formula_addr: u64) -> Vec<u8> {
    let mut data = vec![cc_type, 2];
    data.extend_from_slice(&0u16.to_le_bytes());
    data.extend_from_slice(&1u16.to_le_bytes());
    data.extend_from_slice(&1u16.to_le_bytes());
    data.extend_from_slice(&0.0f64.to_le_bytes());
    data.extend_from_slice(&10.0f64.to_le_bytes());
    data.extend_from_slice(&2.5f64.to_le_bytes());
    block(b"##CC", &[0, 0, 0, 0, formula_addr], &data)
}

#[test]
fn conversion_block_reads_and_resolves_its_formula() {
    let cc = conversion_bytes(3, 96);
    assert_eq!(cc.len(), 96);
    let mut file = cc.clone();
    file.extend(block(b"##TX", &[], b"X*2\0"));
    let mut conv = ConversionBlock::from_bytes(&file).unwrap();
    assert_eq!(conv.cc_type, ConversionType::Algebraic);
    assert_eq!(conv.cc_precision, 2);
    assert_eq!(conv.cc_ref, vec![96]);
    assert_eq!(conv.cc_tx_name, None);
    assert_eq!(conv.cc_val, vec![2.5f64.to_bits()]);
    assert_eq!(conv.cc_phy_range_max, 10.0f64.to_bits());
    assert!(conv.formula.is_none());
    conv.resolve_formula(&file).unwrap();
    assert_eq!(conv.formula.as_deref(), Some("X*2"));
}

#[test]
fn only_algebraic_conversions_look_up_a_formula() {
    let mut file = conversion_bytes(1, 96);
    file.extend(block(b"##TX", &[], b"X*2\0"));
    let mut conv = ConversionBlock::from_bytes(&file).unwrap();
    assert_eq!(conv.cc_type, ConversionType::Linear);
    conv.resolve_formula(&file).unwrap();
    assert!(conv.formula.is_none());
}

#[test]
fn a_formula_link_outside_the_file_is_an_error() {
    let file = conversion_bytes(3, 5000);
    let mut conv = ConversionBlock::from_bytes(&file).unwrap();
    assert!(conv.resolve_formula(&file).is_err());
    assert!(conv.formula.is_none());
}

#[test]
fn conversion_type_codes() {
    assert_eq!(ConversionType::from_u8(0), ConversionType::Identity);
    assert_eq!(ConversionType::from_u8(11), ConversionType::BitfieldText);
    assert_eq!(ConversionType::from_u8(42), ConversionType::Unknown(42));
}

#[test]
fn decodes_unsigned_little_endian_field() {
    let c = channel(DataType::UnsignedIntegerLE, 1, 0, 16);
    let v = decode_channel_value(&[0xAA, 0x34, 0x12], 0, &c);
    assert_eq!(v, Some(DecodedValue::UnsignedInteger(0x1234)));
    // the record id is skipped
    let v = decode_channel_value(&[9, 0xAA, 0x34, 0x12], 1, &c);
    assert_eq!(v, Some(DecodedValue::UnsignedInteger(0x1234)));
    // too short a record has no value
    assert_eq!(decode_channel_value(&[0xAA, 0x34], 0, &c), None);
}

#[test]
fn decodes_big_endian_and_signed_bit_fields() {
    let c = channel(DataType::UnsignedIntegerBE, 0, 0, 16);
    assert_eq!(decode_channel_value(&[0x12, 0x34], 0, &c), Some(DecodedValue::UnsignedInteger(0x1234)));
    let c = channel(DataType::SignedIntegerLE, 0, 4, 12);
    assert_eq!(decode_channel_value(&[0xF0, 0xFF], 0, &c), Some(DecodedValue::SignedInteger(-1)));
    let c = channel(DataType::SignedIntegerLE, 0, 0, 8);
    assert_eq!(decode_channel_value(&[0x7F], 0, &c), Some(DecodedValue::SignedInteger(127)));
    // a bit offset above 7 has no value
    let c = channel(DataType::UnsignedIntegerLE, 0, 8, 8);
    assert_eq!(decode_channel_value(&[1, 2, 3], 0, &c), None);
}

#[test]
fn decodes_floats_as_bit_patterns() {
    let c = channel(DataType::FloatLE, 0, 0, 64);
    let v = decode_channel_value(&1.5f64.to_le_bytes(), 0, &c);
    assert_eq!(v, Some(DecodedValue::Float64(1.5f64.to_bits())));
    let c = channel(DataType::FloatBE, 0, 0, 32);
    let v = decode_channel_value(&2.25f32.to_be_bytes(), 0, &c);
    assert_eq!(v, Some(DecodedValue::Float32(2.25f32.to_bits())));
}

#[test]
fn decodes_text_up_to_its_nul() {
    let c = channel(DataType::StringUtf8, 0, 0, 32);
    assert_eq!(decode_channel_value(b"hi\0x", 0, &c), Some(DecodedValue::String("hi".to_string())));
    let c = channel(DataType::StringLatin1, 0, 0, 16);
    assert_eq!(decode_channel_value(&[0xB5, b'A'], 0, &c), Some(DecodedValue::String("\u{b5}A".to_string())));
    // a numeric reader takes no text
    assert_eq!(decode_numeric_value(b"hi\0x", 0, &channel(DataType::StringUtf8, 0, 0, 32)), None);
    let c = channel(DataType::UnsignedIntegerLE, 0, 0, 8);
    assert_eq!(decode_numeric_value(&[5], 0, &c), Some(DecodedValue::UnsignedInteger(5)));
}

#[test]
fn invalidation_bits() {
    let mut c = channel(DataType::UnsignedIntegerLE, 0, 0, 8);
    assert!(check_value_validity(&[1, 2, 0xFF], 0, 2, &c));
    c.flags = 2;
    c.pos_invalidation_bit = 3;
    assert!(!check_value_validity(&[1, 2, 0x08], 0, 2, &c));
    assert!(check_value_validity(&[1, 2, 0x07], 0, 2, &c));
    // a record too short to hold the bit counts as valid
    assert!(check_value_validity(&[1, 2], 0, 2, &c));
    c.flags = 1;
    assert!(!check_value_validity(&[1, 2, 0], 0, 2, &c));
}

#[test]
fn primary_group_is_the_last_with_most_samples() {
    assert_eq!(primary_group_index(&[3, 9, 2, 9, 1]), 3);
    assert_eq!(primary_group_index(&[4]), 0);
    assert_eq!(primary_group_index(&[1, 2, 3]), 2);
}

#[test]
fn decodes_utf16_text() {
    let c = channel(DataType::StringUtf16LE, 0, 0, 48);
    assert_eq!(decode_channel_value(&[b'h', 0, b'i', 0, 0, 0], 0, &c), Some(DecodedValue::String("hi".to_string())));
    let c = channel(DataType::StringUtf16BE, 0, 0, 32);
    assert_eq!(decode_channel_value(&[0, b'o', 0, b'k'], 0, &c), Some(DecodedValue::String("ok".to_string())));
}

#[test]
fn decodes_utf16_surrogate_pairs_and_marks_invalid_text() {
    let c = channel(DataType::StringUtf16LE, 0, 0, 48);
    let v = decode_channel_value(&[0x3D, 0xD8, 0x00, 0xDE, b'!', 0], 0, &c);
    assert_eq!(v, Some(DecodedValue::String("\u{1F600}!".to_string())));
    let c = channel(DataType::StringUtf16LE, 0, 0, 32);
    let v = decode_channel_value(&[0x00, 0xDC, b'a', 0], 0, &c);
    assert_eq!(v, Some(DecodedValue::String("<Invalid UTF16LE>".to_string())));
}

#[test]
fn a_channel_is_numeric_where_at_least_half_its_present_samples_are_numbers() {
    let text = || Some(DecodedValue::String("x".to_string()));
    assert!(column_is_numeric(&[]));
    assert!(column_is_numeric(&[None, None]));
    assert!(column_is_numeric(&[Some(DecodedValue::UnsignedInteger(1)), text(), None]));
    assert!(!column_is_numeric(&[Some(DecodedValue::Float64(0)), text(), text()]));
    assert!(!column_is_numeric(&[text(), None]));
    assert!(column_is_numeric(&[Some(DecodedValue::SignedInteger(-1)), Some(DecodedValue::Float32(0)), text()]));
}

#[test]
fn vlsd_records_come_with_the_error_that_ends_them() {
    let data: Vec<u8> = vec![2, 0, 0, 0, b'a', b'b', 3, 0, 0, 0, b'x', b'y', b'z', 9, 0, 0, 0, b'q'];
    let mut mmap = vec![0u8; 8];
    mmap.extend_from_slice(b"##SD");
    mmap.extend_from_slice(&0u32.to_le_bytes());
    mmap.extend_from_slice(&(24 + data.len() as u64).to_le_bytes());
    mmap.extend_from_slice(&0u64.to_le_bytes());
    mmap.extend_from_slice(&data);
    let mut block = channel(DataType::StringUtf8, 0, 0, 64);
    block.channel_type = 1;
    block.data = 8;
    let raw = RawChannel { block };
    let dg = RawDataGroup {
        block: DataGroupBlock {
            header: BlockHeader { id: *b"##DG", reserved0: 0, block_len: 64, links_nr: 4 },
            next_dg_addr: 0,
            first_cg_addr: 0,
            data_block_addr: 0,
            comment_addr: 0,
            record_id_len: 0,
        },
        channel_groups: Vec::new(),
    };
    let cg = RawChannelGroup { block: ChannelGroupBlock::default(), raw_channels: Vec::new() };
    let (records, stop) = raw.records(&dg, &cg, &mmap).unwrap();
    assert_eq!(records, vec![b"ab".to_vec(), b"xyz".to_vec()]);
    assert!(matches!(stop, Some(MdfError::TooShortBuffer { actual: 18, expected: 26 })));
}
