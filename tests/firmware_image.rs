use cc131x::firmware_image::{Error, FirmwareImage, HexRecord, Segment};

const SIXTY_BYTES: &str = ":10000000101112131415161718191A1B1C1D1E1F78\r\n:10001000202122232425262728292A2B2C2D2E2F68\r\n:10002000303132333435363738393A3B3C3D3E3F58\r\n:0C003000404142434445464748494A4B82\r\n:00000001FF\r\n";

const TWO_BASES: &str = ":020000040000FA\r\n:04000000A0A1A2A376\r\n:04000400A4A5A6A762\r\n:020000040001F9\r\n:0400000050515253B6\r\n:0400040054555657A2\r\n:00000001FF\r\n";

#[test]
fn test_read_record_from_hex() {
    let mut firmware = FirmwareImage::new(SIXTY_BYTES).unwrap();

    if let Some(current_segment) = firmware.segments.pop() {
        assert_eq!(current_segment.start, 0);
        assert_eq!(current_segment.data.len(), 60);
    }
}

#[test]
fn segment_carries_crc_of_its_bytes() {
    let firmware = FirmwareImage::new(SIXTY_BYTES).unwrap();
    assert_eq!(firmware.segments.len(), 1);
    let seg = &firmware.segments[0];
    let expected: Vec<u8> = (0x10u8..0x10 + 60).collect();
    assert_eq!(seg.data, expected);
    assert_eq!(seg.crc, crc::crc32::checksum_ieee(&expected));
    assert_ne!(seg.crc, 0);
    assert!(seg.is_valid());
}

#[test]
fn two_linear_bases_give_two_segments() {
    let firmware = FirmwareImage::new(TWO_BASES).unwrap();
    assert_eq!(firmware.segments.len(), 2);
    let first = &firmware.segments[0];
    let second = &firmware.segments[1];
    assert_eq!(first.start, 0x0000);
    assert_eq!(second.start, 0x0001_0000);
    assert_eq!(first.data, vec![0xA0, 0xA1, 0xA2, 0xA3, 0xA4, 0xA5, 0xA6, 0xA7]);
    assert_eq!(second.data, vec![0x50, 0x51, 0x52, 0x53, 0x54, 0x55, 0x56, 0x57]);
    assert_eq!(first.crc, crc::crc32::checksum_ieee(&first.data));
    assert_eq!(second.crc, crc::crc32::checksum_ieee(&second.data));
}

#[test]
fn text_without_trailing_line_ends_at_last_record() {
    let firmware = FirmwareImage::new(":0400000050515253B6\r\n:00000001FF").unwrap();
    assert_eq!(firmware.segments.len(), 1);
    assert_eq!(firmware.segments[0].data, vec![0x50, 0x51, 0x52, 0x53]);
}

#[test]
fn extended_segment_address_shifts_by_four() {
    let firmware = FirmwareImage::new(":020000021000EC\r\n:020010000102EB\r\n:00000001FF\r\n").unwrap();
    assert_eq!(firmware.segments.len(), 1);
    assert_eq!(firmware.segments[0].start, 0x10010);
    assert_eq!(firmware.segments[0].data, vec![1, 2]);
}

#[test]
fn start_segment_address_is_ignored() {
    let firmware = FirmwareImage::new(":0400000300000000F9\r\n:0400000050515253B6\r\n:00000001FF\r\n").unwrap();
    assert_eq!(firmware.segments.len(), 1);
}

#[test]
fn data_after_end_of_file_is_refused() {
    let err = FirmwareImage::new(":00000001FF\r\n:0400000050515253B6\r\n").unwrap_err();
    assert_eq!(err, Error::EndOfFileInMiddleOfFile);
}

#[test]
fn malformed_line_is_refused() {
    let err = FirmwareImage::new(":0400000050515253B7\r\n:00000001FF\r\n").unwrap_err();
    assert_eq!(err, Error::HexParse);
}

#[test]
fn start_linear_address_is_refused() {
    let err = FirmwareImage::new(":0400000500000000F7\r\n:00000001FF\r\n").unwrap_err();
    assert_eq!(err, Error::UnhandledRecord);
}

#[test]
fn data_past_four_gigabytes_is_refused() {
    let text = ":02000004FFFFFC\r\n:20FFF0000101010101010101010101010101010101010101010101010101010101010101D1\r\n:00000001FF\r\n";
    assert_eq!(FirmwareImage::new(text).unwrap_err(), Error::AddressOverflow);
}

#[test]
fn gap_between_records_starts_new_segment() {
    let records = vec![
        HexRecord::Data { offset: 0x10, value: vec![1, 2] },
        HexRecord::Data { offset: 0x12, value: vec![3] },
        HexRecord::Data { offset: 0x20, value: vec![4] },
        HexRecord::EndOfFile,
        HexRecord::EndOfFile,
    ];
    let firmware = FirmwareImage::from_records(records).unwrap();
    assert_eq!(firmware.segments.len(), 2);
    assert_eq!(firmware.segments[0].start, 0x10);
    assert_eq!(firmware.segments[0].data, vec![1, 2, 3]);
    assert_eq!(firmware.segments[1].start, 0x20);
    assert_eq!(firmware.segments[1].data, vec![4]);
}

#[test]
fn segment_new_takes_the_bytes() {
    let mut bytes = vec![9, 8, 7];
    let seg = Segment::new(0x100, &mut bytes);
    assert!(bytes.is_empty());
    assert_eq!(seg.data, vec![9, 8, 7]);
    assert_eq!(seg.crc, crc::crc32::checksum_ieee(&[9, 8, 7]));
    let bad = Segment { start: 0x100, data: vec![9, 8, 7], crc: seg.crc ^ 1 };
    assert!(!bad.is_valid());
}

#[test]
fn from_segments_refuses_a_bad_crc() {
    let mut bytes = vec![1, 2, 3];
    let good = Segment::new(0, &mut bytes);
    let bad = Segment { start: 0x10, data: vec![4], crc: 0 };
    assert_eq!(FirmwareImage::from_segments(vec![good, bad]).unwrap_err(), Error::InvalidSegment);
    let mut bytes = vec![1, 2, 3];
    let image = FirmwareImage::from_segments(vec![Segment::new(0, &mut bytes)]).unwrap();
    assert_eq!(image.segments.len(), 1);
}

#[test]
fn bootloader_config_word_is_checked() {
    let mut ccfg = vec![0u8; 88];
    ccfg[48..52].copy_from_slice(&[0xC5, 0x07, 0xFE, 0xC5]);
    let mut bytes = ccfg.clone();
    let image = FirmwareImage { segments: vec![Segment::new(0x1FFA8, &mut bytes)] };
    assert!(image.bl_config_intact());
    ccfg[49] = 0x00;
    let mut bytes = ccfg.clone();
    let image = FirmwareImage { segments: vec![Segment::new(0x1FFA8, &mut bytes)] };
    assert!(!image.bl_config_intact());
    let mut bytes = vec![0u8; 4];
    let image = FirmwareImage { segments: vec![Segment::new(0x100, &mut bytes)] };
    assert!(image.bl_config_intact());
}

#[test]
fn empty_data_record_keeps_the_run() {
    let records = vec![
        HexRecord::Data { offset: 0, value: vec![1, 2] },
        HexRecord::Data { offset: 10, value: vec![] },
        HexRecord::Data { offset: 2, value: vec![3] },
        HexRecord::EndOfFile,
    ];
    let firmware = FirmwareImage::from_records(records).unwrap();
    assert_eq!(firmware.segments.len(), 1);
    assert_eq!(firmware.segments[0].start, 0);
    assert_eq!(firmware.segments[0].data, vec![1, 2, 3]);
}

#[test]
fn first_segment_away_from_zero_has_no_empty_predecessor() {
    let firmware = FirmwareImage::new(":020010000102EB\r\n:00000001FF\r\n").unwrap();
    assert_eq!(firmware.segments.len(), 1);
    assert_eq!(firmware.segments[0].start, 0x10);
}

#[test]
fn blank_line_counts_as_end_of_file() {
    let err = FirmwareImage::new("\r\n:0400000050515253B6\r\n").unwrap_err();
    assert_eq!(err, Error::EndOfFileInMiddleOfFile);
}
