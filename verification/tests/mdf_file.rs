use ici_core::mf4::api::mdf::MDF;
use ici_core::mf4::error::MdfError;
use ici_core::mf4::parsing::decoder::DecodedValue;

fn block(id: &[u8; 4], links: &[u64], data: &[u8]) -> Vec<u8> {
    let mut b = Vec::new();
    b.extend_from_slice(id);
    b.extend_from_slice(&[0, 0, 0, 0]);
    let len = 24 + 8 * links.len() + data.len();
    b.extend_from_slice(&(len as u64).to_le_bytes());
    b.extend_from_slice(&(links.len() as u64).to_le_bytes());
    for l in links {
        b.extend_from_slice(&l.to_le_bytes());
    }
    b.extend_from_slice(data);
    b
}

fn put(file: &mut Vec<u8>, at: usize, bytes: &[u8]) {
    if file.len() < at + bytes.len() {
        file.resize(at + bytes.len(), 0);
    }
    file[at..at + bytes.len()].copy_from_slice(bytes);
}

fn channel_data(channel_type: u8, data_type: u8, byte_offset: u32, bit_count: u32) -> Vec<u8> {
    let mut d = vec![channel_type, 0, data_type, 0];
    d.extend_from_slice(&byte_offset.to_le_bytes());
    d.extend_from_slice(&bit_count.to_le_bytes());
    d.extend_from_slice(&0u32.to_le_bytes());
    d.extend_from_slice(&0u32.to_le_bytes());
    d.extend_from_slice(&[0, 0, 0, 0]);
    d.extend_from_slice(&[0u8; 48]);
    d
}

/// A file with one data group, one channel group "G1" of three records and
/// two channels: a master "Time" (u8 at byte 0) and "I" (u16 at byte 1).
fn small_file() -> Vec<u8> {
    let mut file = Vec::new();
    let mut id = Vec::new();
    id.extend_from_slice(b"MDF     4.10    test    ");
    id.extend_from_slice(&[0, 0, 0, 0]);
    id.extend_from_slice(&410u16.to_le_bytes());
    id.resize(64, 0);
    put(&mut file, 0, &id);
    let mut hd_data = Vec::new();
    hd_data.extend_from_slice(&1_000_000_000u64.to_le_bytes());
    hd_data.resize(32, 0);
    put(&mut file, 64, &block(b"##HD", &[168, 0, 0, 0, 0, 0], &hd_data));
    put(&mut file, 168, &block(b"##DG", &[0, 232, 720, 0], &[0u8; 8]));
    let mut cg_data = Vec::new();
    cg_data.extend_from_slice(&0u64.to_le_bytes());
    cg_data.extend_from_slice(&3u64.to_le_bytes());
    cg_data.extend_from_slice(&[0, 0, 0, 0, 0, 0, 0, 0]);
    cg_data.extend_from_slice(&3u32.to_le_bytes());
    cg_data.extend_from_slice(&0u32.to_le_bytes());
    put(&mut file, 232, &block(b"##CG", &[0, 336, 760, 0, 0, 0], &cg_data));
    put(&mut file, 336, &block(b"##CN", &[496, 0, 656, 0, 0, 0, 0, 0], &channel_data(2, 0, 0, 8)));
    put(&mut file, 496, &block(b"##CN", &[0, 0, 688, 0, 0, 0, 0, 0], &channel_data(0, 0, 1, 16)));
    put(&mut file, 656, &block(b"##TX", &[], b"Time\0\0\0\0"));
    put(&mut file, 688, &block(b"##TX", &[], b"I\0\0\0\0\0\0\0"));
    put(&mut file, 720, &block(b"##DT", &[], &[0, 10, 0, 1, 20, 0, 2, 30, 1]));
    put(&mut file, 760, &block(b"##TX", &[], b"G1\0\0\0\0\0\0"));
    file
}

#[test]
fn reads_groups_channels_and_values_of_a_small_file() {
    let mdf = MDF::from_bytes(small_file()).unwrap();
    assert_eq!(mdf.start_time_ns(), Some(1_000_000_000));
    let groups = mdf.channel_groups();
    assert_eq!(groups.len(), 1);
    let g = &groups[0];
    assert_eq!(g.name().unwrap(), Some("G1".to_string()));
    assert_eq!(g.raw_channel_group().block.cycles_nr, 3);
    let channels = g.channels();
    assert_eq!(channels.len(), 2);
    assert_eq!(channels[0].name().unwrap(), Some("Time".to_string()));
    assert_eq!(channels[0].block().channel_type, 2);
    let time: Vec<Option<DecodedValue>> = channels[0].raw_values().unwrap();
    assert_eq!(
        time,
        vec![
            Some(DecodedValue::UnsignedInteger(0)),
            Some(DecodedValue::UnsignedInteger(1)),
            Some(DecodedValue::UnsignedInteger(2)),
        ]
    );
    let current = mdf.channel("I").expect("channel I");
    assert_eq!(
        current.raw_values().unwrap(),
        vec![
            Some(DecodedValue::UnsignedInteger(10)),
            Some(DecodedValue::UnsignedInteger(20)),
            Some(DecodedValue::UnsignedInteger(286)),
        ]
    );
    assert!(mdf.channel("U").is_none());
    assert!(mdf.group("G1").is_some());
    assert!(mdf.group("G2").is_none());
    assert!(g.channel("Time").is_some());
}

#[test]
fn a_file_that_is_not_mdf_is_refused() {
    let mut file = small_file();
    file[0] = b'X';
    assert!(matches!(MDF::from_bytes(file), Err(MdfError::FileIdentifierError(_))));
    let mut old = small_file();
    old[28] = 0x90;
    old[29] = 0x01;
    assert!(matches!(MDF::from_bytes(old), Err(MdfError::FileVersioningError(400))));
    assert!(matches!(MDF::from_bytes(vec![0; 10]), Err(MdfError::TooShortBuffer { .. })));
}
