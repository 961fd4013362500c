use cc131x::bootloader::{check_reply, Bootloader, Error, Exchange, Expect, Outcome, Session, Step, CC1310_CHIP_ID, SRAM_START};
use cc131x::commands::Error as PacketError;
use cc131x::commands::StatusValue;
use cc131x::firmware_image::{FirmwareImage, Segment};

fn segment(start: usize, len: usize) -> Segment {
    let mut bytes: Vec<u8> = (0..len).map(|i| (i % 251) as u8).collect();
    Segment::new(start, &mut bytes)
}

fn downloads(plan: &[Exchange]) -> Vec<Vec<u8>> {
    plan.iter().filter(|e| e.tx.len() > 2 && e.tx[2] == 0x21).map(|e| e.tx[3..11].to_vec()).collect()
}

fn chip_id_reply(id: u32) -> Vec<u8> {
    let b = id.to_be_bytes();
    let sum = b.iter().map(|x| *x as u32).sum::<u32>() as u8;
    vec![0, 0, 0xCC, 6, sum, b[0], b[1], b[2], b[3]]
}

fn crc_reply(v: u32) -> Vec<u8> {
    let b = v.to_be_bytes();
    let sum = b.iter().map(|x| *x as u32).sum::<u32>() as u8;
    vec![0, 0xCC, 6, sum, b[0], b[1], b[2], b[3]]
}

#[test]
fn chunking_505_bytes_gives_252_252_1() {
    let mut plan = Vec::new();
    Bootloader::write_segment(&mut plan, &segment(0x1000, 505));
    let sizes: Vec<usize> = plan.iter().filter(|e| e.tx.len() > 2 && e.tx[2] == 0x24).map(|e| e.tx.len() - 3).collect();
    assert_eq!(sizes, vec![252, 252, 1]);
    let waits: Vec<u64> = plan.iter().filter(|e| e.tx.len() > 2 && e.tx[2] == 0x24).map(|e| e.wait_ns).collect();
    assert_eq!(waits, vec![252 * 6500, 252 * 6500, 6500]);
}

#[test]
fn write_segment_sequence() {
    let seg = segment(0x2000, 10);
    let crc = seg.crc;
    let mut plan = Vec::new();
    Bootloader::write_segment(&mut plan, &seg);
    let cmds: Vec<u8> = plan.iter().map(|e| if e.tx.len() == 1 { e.tx[0] } else { e.tx[2] }).collect();
    assert_eq!(cmds, vec![0x21, 0x24, 0x23, 0xCC, 0x27, 0xCC, 0x23, 0xCC]);
    assert_eq!(plan[4].expect, Expect::Crc(crc));
    assert_eq!(plan[4].wait_ns, 10 * 500);
    assert_eq!(plan[4].read_len, 16);
}

#[test]
fn ram_segment_is_skipped() {
    let image = FirmwareImage { segments: vec![segment(0x2000_0000, 4), segment(0x0000_1000, 4)] };
    let plan = Bootloader::flash_firmware(&image, SRAM_START, CC1310_CHIP_ID);
    assert_eq!(downloads(&plan), vec![vec![0x00, 0x00, 0x10, 0x00, 0, 0, 0, 4]]);
    assert_eq!(plan.first().unwrap().tx[2], 0x20);
    assert_eq!(plan.last().unwrap().tx[2], 0x25);
}

#[test]
fn flash_plan_starts_with_init_and_erase() {
    let image = FirmwareImage { segments: vec![segment(0, 4)] };
    let plan = Bootloader::flash_firmware(&image, SRAM_START, CC1310_CHIP_ID);
    assert_eq!(plan[0].expect, Expect::Ack);
    assert_eq!(plan[1].expect, Expect::ChipId(0x2002_8000));
    assert_eq!(plan[2].tx, vec![0xCC]);
    assert_eq!(plan[3].tx[2], 0x2C);
    assert_eq!(plan[3].wait_ns, 25_000_000);
    assert_eq!(plan[3].read_len, 28);
}

#[test]
fn erase_sector_waits_and_reads() {
    let mut plan = Vec::new();
    Bootloader::erase_sector(&mut plan, 0x1000);
    assert_eq!(plan[0].tx, vec![7, (0x26u32 + 0x10) as u8, 0x26, 0, 0, 0x10, 0]);
    assert_eq!(plan[0].wait_ns, 10_000_000);
    assert_eq!(plan[0].read_len, 28);
    assert_eq!(plan.len(), 3);
}

#[test]
fn nack_fails_the_session() {
    let image = FirmwareImage { segments: vec![segment(0, 4)] };
    let plan = Bootloader::flash_firmware(&image, SRAM_START, CC1310_CHIP_ID);
    let mut session = Session::new(plan, false);
    let step = session.advance(&vec![0x00, 0x33, 0xCC, 0, 0]);
    assert_eq!(step, Step::Failed(Error::Protocol(PacketError::Nack)));
    assert!(session.finished);
}

#[test]
fn mismatch_reports_update_needed_and_resets() {
    let seg = segment(0, 16);
    let stored = seg.crc;
    let image = FirmwareImage { segments: vec![seg] };
    let plan = Bootloader::firmware_match(&image, SRAM_START, CC1310_CHIP_ID);
    let mut session = Session::new(plan, true);
    assert_eq!(session.advance(&vec![0, 0xCC]), Step::Next);
    assert_eq!(session.advance(&chip_id_reply(CC1310_CHIP_ID)), Step::Next);
    assert_eq!(session.advance(&vec![0]), Step::Next);
    assert_eq!(session.current().tx[2], 0x27);
    assert_eq!(session.advance(&crc_reply(stored ^ 0xFFFF)), Step::Next);
    assert_eq!(session.current().tx, vec![0xCC]);
    assert_eq!(session.advance(&vec![0]), Step::Next);
    assert_eq!(session.current().tx[2], 0x25);
    assert_eq!(session.advance(&vec![0, 0, 0xCC]), Step::Done(false));
}

#[test]
fn matching_image_reports_no_update() {
    let seg = segment(0, 16);
    let stored = seg.crc;
    let image = FirmwareImage { segments: vec![seg, segment(0x2000_0100, 4)] };
    let plan = Bootloader::firmware_match(&image, SRAM_START, CC1310_CHIP_ID);
    assert_eq!(plan.len(), 6);
    let mut session = Session::new(plan, true);
    assert_eq!(session.advance(&vec![0xCC]), Step::Next);
    assert_eq!(session.advance(&chip_id_reply(CC1310_CHIP_ID)), Step::Next);
    assert_eq!(session.advance(&vec![0]), Step::Next);
    assert_eq!(session.advance(&crc_reply(stored)), Step::Next);
    assert_eq!(session.advance(&vec![0]), Step::Next);
    assert_eq!(session.advance(&vec![0xCC]), Step::Done(true));
}

#[test]
fn crc_mismatch_fails_a_flash() {
    let mut plan = Vec::new();
    Bootloader::get_crc(&mut plan, 0, 4, 0x1234);
    let mut session = Session::new(plan, false);
    assert_eq!(session.advance(&crc_reply(0x1235)), Step::Next);
    assert_eq!(session.current().tx, vec![0xCC]);
    assert_eq!(session.advance(&vec![0]), Step::Failed(Error::CrcMismatch));
    assert!(session.finished);
}

#[test]
fn wrong_chip_id_is_acknowledged_then_fails() {
    let image = FirmwareImage { segments: vec![segment(0, 4)] };
    let plan = Bootloader::flash_firmware(&image, SRAM_START, CC1310_CHIP_ID);
    let mut session = Session::new(plan, false);
    assert_eq!(session.advance(&vec![0xCC]), Step::Next);
    assert_eq!(session.advance(&chip_id_reply(0x1234_5678)), Step::Next);
    assert_eq!(session.current().tx, vec![0xCC]);
    assert_eq!(session.advance(&vec![0]), Step::Failed(Error::ChipIdMismatch(0x1234_5678)));
    assert!(session.finished);
}

#[test]
fn failed_status_is_acknowledged_then_fails() {
    let mut plan = Vec::new();
    Bootloader::erase_sector(&mut plan, 0);
    let mut session = Session::new(plan, false);
    assert_eq!(session.advance(&vec![0, 0xCC]), Step::Next);
    assert_eq!(session.advance(&vec![0xCC, 3, 0x44, 0x44]), Step::Next);
    assert_eq!(session.current().tx, vec![0xCC]);
    assert_eq!(session.advance(&vec![0]), Step::Failed(Error::Status(StatusValue::FlashFail)));
}

#[test]
fn unknown_status_code_fails_without_ack() {
    let mut plan = Vec::new();
    Bootloader::erase_sector(&mut plan, 0);
    let mut session = Session::new(plan, false);
    assert_eq!(session.advance(&vec![0xCC]), Step::Next);
    assert_eq!(
        session.advance(&vec![0xCC, 3, 0x45, 0x45]),
        Step::Failed(Error::Protocol(PacketError::InvalidStatusCode))
    );
    assert!(session.finished);
}

#[test]
fn wrong_chip_id_fails() {
    assert_eq!(
        check_reply(Expect::ChipId(CC1310_CHIP_ID), &chip_id_reply(0x1234_5678)),
        Outcome::Refused(Error::ChipIdMismatch(0x1234_5678))
    );
}

#[test]
fn status_other_than_success_fails() {
    assert_eq!(check_reply(Expect::Status, &vec![0xCC, 3, 0x44, 0x44]), Outcome::Refused(Error::Status(StatusValue::FlashFail)));
    assert_eq!(check_reply(Expect::Status, &vec![0xCC, 3, 0x40, 0x40]), Outcome::Accepted);
    assert_eq!(check_reply(Expect::Ack, &vec![0; 8]), Outcome::Rejected(Error::Protocol(PacketError::NoAck)));
    assert_eq!(check_reply(Expect::Nothing, &vec![]), Outcome::Accepted);
}
