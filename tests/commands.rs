use cc131x::commands::{
    check_ack, ChipId, CommandStatus, Crc32, Crc32Response, Download, Error, GetChipId, MemoryRead,
    MemoryWrite, Ping, SectorErase, SendData, StatusValue,
};

#[test]
fn test_bl_packet_serializer() {
    let cmd = Crc32::new(0x3030, 0xABAB, 0);

    let packet: Vec<u8> = cmd.serialize().unwrap();
    let checksum = (0x27 + 0x30 + 0x30 + 0xAB + 0xAB) & 0xFF;
    assert_eq!(
        packet.as_slice(),
        [15, checksum as u8, 0x27, 0x00, 0x00, 0x30, 0x30, 0x00, 0x00, 0xAB, 0xAB, 0, 0, 0, 0]
    );
}

#[test]
fn test_bl_packet_deserializer() {
    let checksum = (0x30 + 0x30 + 0xAB + 0xAB) & 0xFF;
    let data_from_bus = vec![
        0,
        0,
        0xCC,
        14,
        checksum as u8,
        0x00,
        0x00,
        0x30,
        0x30,
        0x00,
        0x00,
        0xAB,
        0xAB,
        0x00,
        0x00,
        0x00,
        0x00,
    ];
    let response = Crc32::from_payload(data_from_bus).unwrap();
    assert_eq!(response.address, 0x3030);
    assert_eq!(response.size, 0xABAB);
}

#[test]
fn fixed_size_commands_have_length_plus_idle() {
    assert_eq!(Ping::new().serialize().unwrap().len(), 3 + 36);
    assert_eq!(GetChipId::new().serialize().unwrap().len(), 3 + 42);
    assert_eq!(Download::new(1, 2).serialize().unwrap().len(), 11 + 24);
    assert_eq!(SectorErase::new(7).serialize().unwrap().len(), 7);
    assert_eq!(MemoryRead::new(0x1000, 1, 4).serialize().unwrap().len(), 9 + 272);
}

#[test]
fn header_holds_length_checksum_and_command() {
    let packet = Download::new(0x0102_0304, 0x0000_0010).serialize().unwrap();
    assert_eq!(packet[0], 11);
    assert_eq!(packet[1], ((0x21u32 + 1 + 2 + 3 + 4 + 0x10) % 256) as u8);
    assert_eq!(packet[2], 0x21);
    assert_eq!(&packet[3..11], &[1, 2, 3, 4, 0, 0, 0, 0x10]);
    assert!(packet[11..].iter().all(|b| *b == 0));
    let ping = Ping::new().serialize().unwrap();
    assert_eq!(&ping[0..3], &[3, 0x20, 0x20]);
}

#[test]
fn send_data_checksum_wraps() {
    let packet = SendData::new(vec![0xFF, 0xFF, 0x03]).serialize().unwrap();
    assert_eq!(packet, vec![6, ((0x24u32 + 0xFF + 0xFF + 3) % 256) as u8, 0x24, 0xFF, 0xFF, 0x03]);
}

#[test]
fn send_data_without_bytes_is_too_short() {
    assert_eq!(SendData::new(vec![]).serialize().unwrap_err(), Error::MinPayloadNotMet);
}

#[test]
fn send_data_with_253_bytes_is_too_long() {
    assert_eq!(SendData::new(vec![1; 253]).serialize().unwrap_err(), Error::MaxPayloadExceeded);
    assert_eq!(SendData::new(vec![1; 252]).serialize().unwrap().len(), 255);
}

#[test]
fn memory_write_carries_its_data() {
    let packet = MemoryWrite::new(0x10, 2, vec![0xAA, 0xBB]).serialize().unwrap();
    assert_eq!(packet.len(), 13 + 50);
    assert_eq!(&packet[0..13], &[13, ((0x2Bu32 + 0x10 + 2 + 0xAA + 0xBB) % 256) as u8, 0x2B, 0, 0, 0, 0x10, 0, 0, 0, 2, 0xAA, 0xBB]);
}

#[test]
fn ack_scan_finds_ack() {
    assert_eq!(check_ack(&vec![0x00, 0x00, 0xCC, 4, 0]), Ok(3));
}

#[test]
fn ack_scan_reports_nack() {
    assert_eq!(check_ack(&vec![0x00, 0x33, 0xCC]), Err(Error::Nack));
}

#[test]
fn ack_scan_reports_missing_ack() {
    assert_eq!(check_ack(&vec![0u8; 16]), Err(Error::NoAck));
    assert_eq!(check_ack(&vec![]), Err(Error::NoAck));
}

#[test]
fn status_reply_round_trip() {
    let reply = CommandStatus::from_payload(vec![0, 0xCC, 3, 0x40, 0x40]).unwrap();
    assert_eq!(reply.value, StatusValue::Success);
    let reply = CommandStatus::from_payload(vec![0xCC, 3, 0x44, 0x44, 0, 0]).unwrap();
    assert_eq!(reply.value, StatusValue::FlashFail);
}

#[test]
fn status_reply_with_unknown_code() {
    let err = CommandStatus::from_payload(vec![0xCC, 3, 0x45, 0x45]).unwrap_err();
    assert_eq!(err, Error::InvalidStatusCode);
}

#[test]
fn reply_with_bad_checksum() {
    let err = ChipId::from_payload(vec![0xCC, 6, 0x00, 0x20, 0x02, 0x80, 0x00]).unwrap_err();
    assert_eq!(err, Error::BadChecksum);
}

#[test]
fn reply_length_bounds() {
    assert_eq!(ChipId::from_payload(vec![0xCC, 5, 0, 1, 2, 3]).unwrap_err(), Error::MinPayloadNotMet);
    assert_eq!(ChipId::from_payload(vec![0xCC, 7, 0, 1, 2, 3, 4]).unwrap_err(), Error::MaxPayloadExceeded);
}

#[test]
fn reply_cut_short() {
    assert_eq!(ChipId::from_payload(vec![0xCC, 6, 0xA2, 0x20, 0x02]).unwrap_err(), Error::PacketTooShort);
    assert_eq!(ChipId::from_payload(vec![0xCC]).unwrap_err(), Error::PacketTooShort);
}

#[test]
fn chip_id_reply_decodes_big_endian() {
    let sum = (0x20u32 + 0x02 + 0x80) as u8;
    let reply = ChipId::from_payload(vec![0, 0, 0xCC, 6, sum, 0x20, 0x02, 0x80, 0x00]).unwrap();
    assert_eq!(reply.value, 0x2002_8000);
    let reply = Crc32Response::from_payload(vec![0xCC, 6, 4, 1, 1, 1, 1]).unwrap();
    assert_eq!(reply.value, 0x0101_0101);
}

#[test]
fn status_bytes() {
    assert_eq!(StatusValue::from_byte(0x43), Some(StatusValue::InvalidAddr));
    assert_eq!(StatusValue::from_byte(0x01), None);
    assert_eq!(StatusValue::UnknownCmd.to_byte(), 0x41);
    assert_eq!(StatusValue::default(), StatusValue::Default);
}
