//! The flashing sequencer: each bootloader operation as a plan of exchanges,
//! and the state machine that checks the replies and decides what comes next.
//! The caller performs the transfers and sleeps and hands back what it captured.
use crate::commands::{
    be32, be32_at, copy_range, frame, framed, read_be32, read_header, reply_payload, ack_scan, check_ack, BankErase,
    ChipId, CommandStatus, Crc32, Crc32Response, Download, GetChipId, GetStatus, Ping, Reset,
    SectorErase, SendData, StatusValue, ACK_BYTE, NACK_BYTE, ack_scan_from,
};
use crate::commands::Error as PacketError;
use crate::firmware_image::{FirmwareImage, Segment};
use vstd::prelude::*;

verus! {

/// Chip identifier of the CC1310.
pub const CC1310_CHIP_ID: u32 = 0x2002_8000;

/// Address bit of the SRAM aperture; segments with it set are not flashed.
pub const SRAM_START: usize = 0x2000_0000;

/// Most data bytes carried by one `SendData`.
pub const MAX_PAYLOAD: usize = 252;

pub const BANK_ERASE_WAIT_NS: u64 = 25_000_000;
pub const SECTOR_ERASE_WAIT_NS: u64 = 10_000_000;
pub const ERASE_READ_LEN: usize = 28;
pub const DATA_WAIT_NS_PER_BYTE: u64 = 6500;
pub const DATA_READ_LEN: usize = 32;
pub const CRC_WAIT_NS_PER_BYTE: u64 = 500;
pub const CRC_READ_LEN: usize = 16;
pub const RESET_WAIT_NS: u64 = 20_000_000;

#[derive(Debug, Clone, Copy, PartialEq, Eq, Structural)]
pub enum Error {
    /// The packet layer failed: no ACK, a NACK, a bad checksum or length.
    Protocol(PacketError),
    /// The device returned a status other than success.
    Status(StatusValue),
    /// The device returned another chip identifier than the expected one.
    ChipIdMismatch(u32),
    /// The CRC32 that the device computed differs from the segment's.
    CrcMismatch,
}

/// What the reply to an exchange must hold.
#[derive(Debug, Clone, Copy, PartialEq, Eq, Structural)]
pub enum Expect {
    /// Nothing: the exchange only sends.
    Nothing,
    /// An ACK.
    Ack,
    /// An ACK and a status reply that reads `Success`.
    Status,
    /// An ACK and a chip identifier reply with this value.
    ChipId(u32),
    /// An ACK and a CRC32 reply with this value.
    Crc(u32),
}

/// One exchange with the device: clock out `tx`, wait `wait_ns`, then, when
/// `read_len` is not zero, clock `read_len` zero bytes and take what they
/// capture as the reply; otherwise the reply is what `tx` captured.
#[derive(Debug)]
pub struct Exchange {
    pub tx: Vec<u8>,
    pub wait_ns: u64,
    pub read_len: usize,
    pub expect: Expect,
}

pub struct ExchangeModel {
    pub tx: Seq<u8>,
    pub wait_ns: int,
    pub read_len: int,
    pub expect: Expect,
}

impl View for Exchange {
    type V = ExchangeModel;

    open spec fn view(&self) -> ExchangeModel {
        ExchangeModel { tx: self.tx@, wait_ns: self.wait_ns as int, read_len: self.read_len as int, expect: self.expect }
    }
}

pub open spec fn plan_model(plan: Seq<Exchange>) -> Seq<ExchangeModel> {
    plan.map_values(|e: Exchange| e@)
}

pub open spec fn ex(tx: Seq<u8>, wait_ns: int, read_len: int, expect: Expect) -> ExchangeModel {
    ExchangeModel { tx, wait_ns, read_len, expect }
}

/// The host's acknowledgement of a reply.
pub open spec fn host_ack() -> ExchangeModel {
    ex(seq![ACK_BYTE], 0, 0, Expect::Nothing)
}

/// Ping, then the chip identifier, which must equal `chip_id`.
pub open spec fn initialize_plan(chip_id: u32) -> Seq<ExchangeModel> {
    seq![
        ex(frame(Ping::CMD, Seq::empty(), Ping::NULL_BYTES as nat), 0, 0, Expect::Ack),
        ex(frame(GetChipId::CMD, Seq::empty(), GetChipId::NULL_BYTES as nat), 0, 0, Expect::ChipId(chip_id)),
        host_ack(),
    ]
}

/// Status query that must read `Success`.
pub open spec fn status_plan() -> Seq<ExchangeModel> {
    seq![ex(frame(GetStatus::CMD, Seq::empty(), GetStatus::NULL_BYTES as nat), 0, 0, Expect::Status), host_ack()]
}

pub open spec fn erase_chip_plan() -> Seq<ExchangeModel> {
    seq![
        ex(frame(BankErase::CMD, Seq::empty(), BankErase::NULL_BYTES as nat), BANK_ERASE_WAIT_NS as int, ERASE_READ_LEN as int, Expect::Ack),
    ] + status_plan()
}

pub open spec fn erase_sector_plan(address: u32) -> Seq<ExchangeModel> {
    seq![
        ex(frame(SectorErase::CMD, be32(address), SectorErase::NULL_BYTES as nat), SECTOR_ERASE_WAIT_NS as int, ERASE_READ_LEN as int, Expect::Ack),
    ] + status_plan()
}

/// CRC32 query over `size` bytes at `address`, whose reply must equal `expected`.
pub open spec fn crc_plan(address: u32, size: u32, expected: u32) -> Seq<ExchangeModel> {
    seq![
        ex(
            frame(Crc32::CMD, be32(address) + be32(size) + be32(0), Crc32::NULL_BYTES as nat),
            size * CRC_WAIT_NS_PER_BYTE,
            CRC_READ_LEN as int,
            Expect::Crc(expected),
        ),
        host_ack(),
    ]
}

pub open spec fn reset_plan() -> Seq<ExchangeModel> {
    seq![ex(frame(Reset::CMD, Seq::empty(), Reset::NULL_BYTES as nat), RESET_WAIT_NS as int, 0, Expect::Ack)]
}

/// The data split into chunks of `MAX_PAYLOAD` bytes; the last one holds the rest.
pub open spec fn chunks(data: Seq<u8>) -> Seq<Seq<u8>>
    decreases data.len(),
{
    if data.len() <= MAX_PAYLOAD {
        seq![data]
    } else {
        seq![data.subrange(0, MAX_PAYLOAD as int)] + chunks(data.subrange(MAX_PAYLOAD as int, data.len() as int))
    }
}

pub open spec fn send_data(chunk: Seq<u8>) -> ExchangeModel {
    ex(frame(SendData::CMD, chunk, SendData::NULL_BYTES as nat), chunk.len() * DATA_WAIT_NS_PER_BYTE, DATA_READ_LEN as int, Expect::Ack)
}

pub open spec fn data_plan(data: Seq<u8>) -> Seq<ExchangeModel> {
    chunks(data).map_values(|c: Seq<u8>| send_data(c))
}

/// Download, the data chunk by chunk, status, CRC check against the segment's
/// CRC, status.
pub open spec fn segment_plan(s: Segment) -> Seq<ExchangeModel> {
    seq![
        ex(frame(Download::CMD, be32(s.start as u32) + be32(s.data@.len() as u32), Download::NULL_BYTES as nat), 0, 0, Expect::Ack),
    ] + data_plan(s.data@) + status_plan() + crc_plan(s.start as u32, s.data@.len() as u32, s.crc) + status_plan()
}

/// The segments that lie outside the SRAM aperture `mask`, in order.
pub open spec fn flash_segments(segs: Seq<Segment>, mask: usize) -> Seq<Segment>
    decreases segs.len(),
{
    if segs.len() == 0 {
        Seq::empty()
    } else if segs.last().start & mask == 0 {
        flash_segments(segs.drop_last(), mask).push(segs.last())
    } else {
        flash_segments(segs.drop_last(), mask)
    }
}

pub open spec fn writes_plan(segs: Seq<Segment>) -> Seq<ExchangeModel>
    decreases segs.len(),
{
    if segs.len() == 0 {
        Seq::empty()
    } else {
        writes_plan(segs.drop_last()) + segment_plan(segs.last())
    }
}

pub open spec fn checks_plan(segs: Seq<Segment>) -> Seq<ExchangeModel>
    decreases segs.len(),
{
    if segs.len() == 0 {
        Seq::empty()
    } else {
        checks_plan(segs.drop_last()) + crc_plan(segs.last().start as u32, segs.last().data@.len() as u32, segs.last().crc)
    }
}

/// Initialize, erase the bank, write each segment outside the SRAM aperture, reset.
pub open spec fn flash_plan(segs: Seq<Segment>, mask: usize, chip_id: u32) -> Seq<ExchangeModel> {
    initialize_plan(chip_id) + erase_chip_plan() + writes_plan(flash_segments(segs, mask)) + reset_plan()
}

/// Initialize, query the CRC32 of each segment outside the SRAM aperture, reset.
pub open spec fn match_plan(segs: Seq<Segment>, mask: usize, chip_id: u32) -> Seq<ExchangeModel> {
    initialize_plan(chip_id) + checks_plan(flash_segments(segs, mask)) + reset_plan()
}

proof fn lemma_plan_push(plan: Seq<Exchange>, e: Exchange)
    ensures
        plan_model(plan.push(e)) == plan_model(plan).push(e@),
{
    assert(plan_model(plan.push(e)) =~= plan_model(plan).push(e@));
}

fn push_exchange(plan: &mut Vec<Exchange>, tx: Vec<u8>, wait_ns: u64, read_len: usize, expect: Expect)
    ensures
        plan_model(final(plan)@) == plan_model(old(plan)@).push(ex(tx@, wait_ns as int, read_len as int, expect)),
{
    let e = Exchange { tx, wait_ns, read_len, expect };
    let ghost before = plan@;
    plan.push(e);
    proof {
        lemma_plan_push(before, e);
    }
}

/// The sequencer's operations, each appending its exchanges to a plan.
pub struct Bootloader;

impl Bootloader {
    fn ack(plan: &mut Vec<Exchange>)
        ensures
            plan_model(final(plan)@) == plan_model(old(plan)@).push(host_ack()),
    {
        let tx: Vec<u8> = vec![ACK_BYTE];
        assert(tx@ =~= seq![ACK_BYTE]);
        push_exchange(plan, tx, 0, 0, Expect::Nothing);
    }

    fn get_status(plan: &mut Vec<Exchange>)
        ensures
            plan_model(final(plan)@) == plan_model(old(plan)@) + status_plan(),
    {
        let ghost before = plan_model(plan@);
        let tx = GetStatus::new().serialize().unwrap();
        push_exchange(plan, tx, 0, 0, Expect::Status);
        Self::ack(plan);
        assert(plan_model(plan@) =~= before + status_plan());
    }

    /// Ping, then read the chip identifier, which must equal `chip_id`.
    pub fn initialize(plan: &mut Vec<Exchange>, chip_id: u32)
        ensures
            plan_model(final(plan)@) == plan_model(old(plan)@) + initialize_plan(chip_id),
    {
        let ghost before = plan_model(plan@);
        let tx = Ping::new().serialize().unwrap();
        push_exchange(plan, tx, 0, 0, Expect::Ack);
        let tx = GetChipId::new().serialize().unwrap();
        push_exchange(plan, tx, 0, 0, Expect::ChipId(chip_id));
        Self::ack(plan);
        assert(plan_model(plan@) =~= before + initialize_plan(chip_id));
    }

    /// Erase the sector holding `sector`, then require a successful status.
    pub fn erase_sector(plan: &mut Vec<Exchange>, sector: u32)
        ensures
            plan_model(final(plan)@) == plan_model(old(plan)@) + erase_sector_plan(sector),
    {
        let ghost before = plan_model(plan@);
        let tx = SectorErase::new(sector).serialize().unwrap();
        push_exchange(plan, tx, SECTOR_ERASE_WAIT_NS, ERASE_READ_LEN, Expect::Ack);
        Self::get_status(plan);
        assert(plan_model(plan@) =~= before + erase_sector_plan(sector));
    }

    /// Erase the whole bank, then require a successful status.
    pub fn erase_chip(plan: &mut Vec<Exchange>)
        ensures
            plan_model(final(plan)@) == plan_model(old(plan)@) + erase_chip_plan(),
    {
        let ghost before = plan_model(plan@);
        let tx = BankErase::new().serialize().unwrap();
        push_exchange(plan, tx, BANK_ERASE_WAIT_NS, ERASE_READ_LEN, Expect::Ack);
        Self::get_status(plan);
        assert(plan_model(plan@) =~= before + erase_chip_plan());
    }

    /// Query the CRC32 of `size` bytes at `addr`; the reply must equal `expected`.
    pub fn get_crc(plan: &mut Vec<Exchange>, addr: u32, size: u32, expected: u32)
        ensures
            plan_model(final(plan)@) == plan_model(old(plan)@) + crc_plan(addr, size, expected),
    {
        let ghost before = plan_model(plan@);
        let tx = Crc32::new(addr, size, 0).serialize().unwrap();
        push_exchange(plan, tx, size as u64 * CRC_WAIT_NS_PER_BYTE, CRC_READ_LEN, Expect::Crc(expected));
        Self::ack(plan);
        assert(plan_model(plan@) =~= before + crc_plan(addr, size, expected));
    }

    /// Reset the device and give it time to reboot.
    pub fn system_reset(plan: &mut Vec<Exchange>)
        ensures
            plan_model(final(plan)@) == plan_model(old(plan)@) + reset_plan(),
    {
        let ghost before = plan_model(plan@);
        let tx = Reset::new().serialize().unwrap();
        push_exchange(plan, tx, RESET_WAIT_NS, 0, Expect::Ack);
        assert(plan_model(plan@) =~= before + reset_plan());
    }

    /// Appends one `SendData` exchange; a payload outside 1..=`MAX_PAYLOAD`
    /// bytes is the serializer's bound error and leaves the plan as it was.
    fn write_payload(plan: &mut Vec<Exchange>, payload: Vec<u8>) -> (r: Result<(), PacketError>)
        ensures
            match r {
                Ok(_) => 1 <= payload@.len() <= MAX_PAYLOAD
                    && plan_model(final(plan)@) == plan_model(old(plan)@).push(send_data(payload@)),
                Err(e) => framed(SendData::CMD, payload@, SendData::MIN_LEN, SendData::MAX_LEN, 0) == Err::<Seq<u8>, PacketError>(e)
                    && final(plan)@ == old(plan)@,
            },
    {
        let len = payload.len();
        match SendData::new(payload).serialize() {
            Ok(tx) => {
                push_exchange(plan, tx, len as u64 * DATA_WAIT_NS_PER_BYTE, DATA_READ_LEN, Expect::Ack);
                Ok(())
            },
            Err(e) => Err(e),
        }
    }

    /// Download, the data in chunks of at most `MAX_PAYLOAD` bytes, status, the
    /// CRC check against the segment's CRC, status.
    pub fn write_segment(plan: &mut Vec<Exchange>, segment: &Segment)
        requires
            segment.wf(),
        ensures
            plan_model(final(plan)@) == plan_model(old(plan)@) + segment_plan(*segment),
    {
        let ghost before = plan_model(plan@);
        let address = segment.start as u32;
        let n = segment.data.len();
        let size = n as u32;
        let tx = Download::new(address, size).serialize().unwrap();
        push_exchange(plan, tx, 0, 0, Expect::Ack);
        let ghost d = segment.data@;
        let ghost head = plan_model(plan@);
        let ghost mut sent: Seq<ExchangeModel> = Seq::empty();
        let mut off: usize = 0;
        assert(d.subrange(0, n as int) =~= d);
        assert(data_plan(d) =~= sent + data_plan(d.subrange(0, n as int)));
        while n - off > MAX_PAYLOAD
            invariant
                d == segment.data@,
                n == d.len(),
                off < n,
                plan_model(plan@) == head + sent,
                data_plan(d) == sent + data_plan(d.subrange(off as int, n as int)),
            decreases n - off,
        {
            let chunk = copy_range(&segment.data, off, off + MAX_PAYLOAD);
            match Self::write_payload(plan, chunk) {
                Ok(_) => {},
                Err(_) => {
                    assert(false);
                },
            }
            proof {
                let rest = d.subrange(off as int, n as int);
                assert(rest.subrange(0, MAX_PAYLOAD as int) =~= d.subrange(off as int, off + MAX_PAYLOAD));
                assert(rest.subrange(MAX_PAYLOAD as int, rest.len() as int) =~= d.subrange(off + MAX_PAYLOAD, n as int));
                assert(data_plan(rest) =~= seq![send_data(d.subrange(off as int, off + MAX_PAYLOAD))]
                    + data_plan(d.subrange(off + MAX_PAYLOAD, n as int)));
                sent = sent.push(send_data(d.subrange(off as int, off + MAX_PAYLOAD)));
                assert(data_plan(d) =~= sent + data_plan(d.subrange(off + MAX_PAYLOAD, n as int)));
            }
            off = off + MAX_PAYLOAD;
        }
        let chunk = copy_range(&segment.data, off, n);
        match Self::write_payload(plan, chunk) {
            Ok(_) => {},
            Err(_) => {
                assert(false);
            },
        }
        proof {
            let rest = d.subrange(off as int, n as int);
            assert(data_plan(rest) =~= seq![send_data(rest)]);
            assert(data_plan(d) =~= sent.push(send_data(rest)));
        }
        Self::get_status(plan);
        Self::get_crc(plan, address, size, segment.crc);
        Self::get_status(plan);
        assert(plan_model(plan@) =~= before + segment_plan(*segment));
    }
}

impl Bootloader {
    /// The plan that flashes `firmware`: initialize, erase the bank, write each
    /// segment whose start has no bit of `sram` set, reset.
    pub fn flash_firmware(firmware: &FirmwareImage, sram: usize, chip_id: u32) -> (r: Vec<Exchange>)
        requires
            firmware.wf(),
        ensures
            plan_model(r@) == flash_plan(firmware.segments@, sram, chip_id),
    {
        let mut plan: Vec<Exchange> = Vec::new();
        Self::initialize(&mut plan, chip_id);
        Self::erase_chip(&mut plan);
        let ghost segs = firmware.segments@;
        let ghost head = plan_model(plan@);
        let mut i: usize = 0;
        assert(head =~= head + writes_plan(flash_segments(segs.subrange(0, 0), sram)));
        while i < firmware.segments.len()
            invariant
                segs == firmware.segments@,
                firmware.wf(),
                i <= segs.len(),
                head == initialize_plan(chip_id) + erase_chip_plan(),
                plan_model(plan@) == head + writes_plan(flash_segments(segs.subrange(0, i as int), sram)),
            decreases segs.len() - i,
        {
            let segment = &firmware.segments[i];
            proof {
                assert(segs.subrange(0, i + 1).drop_last() =~= segs.subrange(0, i as int));
                let fs = flash_segments(segs.subrange(0, i as int), sram);
                assert(fs.push(segs[i as int]).drop_last() =~= fs);
            }
            if segment.start & sram == 0 {
                assert(segs[i as int].wf());
                Self::write_segment(&mut plan, segment);
                proof {
                    let fs = flash_segments(segs.subrange(0, i as int), sram);
                    assert(head + writes_plan(fs) + segment_plan(segs[i as int]) =~= head + writes_plan(fs.push(segs[i as int])));
                }
            }
            i = i + 1;
        }
        assert(segs.subrange(0, segs.len() as int) =~= segs);
        Self::system_reset(&mut plan);
        assert(plan_model(plan@) =~= flash_plan(segs, sram, chip_id));
        plan
    }

    /// The plan that checks `firmware` against the device: initialize, compare
    /// the CRC32 of each segment whose start has no bit of `sram` set, reset.
    pub fn firmware_match(firmware: &FirmwareImage, sram: usize, chip_id: u32) -> (r: Vec<Exchange>)
        requires
            firmware.wf(),
        ensures
            plan_model(r@) == match_plan(firmware.segments@, sram, chip_id),
    {
        let mut plan: Vec<Exchange> = Vec::new();
        Self::initialize(&mut plan, chip_id);
        let ghost segs = firmware.segments@;
        let ghost head = plan_model(plan@);
        let mut i: usize = 0;
        assert(head =~= head + checks_plan(flash_segments(segs.subrange(0, 0), sram)));
        while i < firmware.segments.len()
            invariant
                segs == firmware.segments@,
                firmware.wf(),
                i <= segs.len(),
                head == initialize_plan(chip_id),
                plan_model(plan@) == head + checks_plan(flash_segments(segs.subrange(0, i as int), sram)),
            decreases segs.len() - i,
        {
            let segment = &firmware.segments[i];
            proof {
                assert(segs.subrange(0, i + 1).drop_last() =~= segs.subrange(0, i as int));
                let fs = flash_segments(segs.subrange(0, i as int), sram);
                assert(fs.push(segs[i as int]).drop_last() =~= fs);
            }
            if segment.start & sram == 0 {
                Self::get_crc(&mut plan, segment.start as u32, segment.data.len() as u32, segment.crc);
                proof {
                    let fs = flash_segments(segs.subrange(0, i as int), sram);
                    let s = segs[i as int];
                    assert(head + checks_plan(fs) + crc_plan(s.start as u32, s.data@.len() as u32, s.crc)
                        =~= head + checks_plan(fs.push(s)));
                }
            }
            i = i + 1;
        }
        assert(segs.subrange(0, segs.len() as int) =~= segs);
        Self::system_reset(&mut plan);
        assert(plan_model(plan@) =~= match_plan(segs, sram, chip_id));
        plan
    }
}

/// What a reply means for the session.
#[derive(Debug, Clone, Copy, PartialEq, Eq, Structural)]
pub enum Outcome {
    /// The reply holds what was expected.
    Accepted,
    /// The reply is well formed but its value fails the check (a status other
    /// than success, another chip identifier, another CRC32): the host still
    /// acknowledges it.
    Refused(Error),
    /// The reply cannot be read (no ACK, a NACK, a bad packet): the exchange fails.
    Rejected(Error),
}

/// The meaning of the captured bytes `rx` for an exchange that expects `expect`.
pub open spec fn reply_outcome(expect: Expect, rx: Seq<u8>) -> Outcome {
    match expect {
        Expect::Nothing => Outcome::Accepted,
        Expect::Ack => match ack_scan(rx) {
            Ok(_) => Outcome::Accepted,
            Err(e) => Outcome::Rejected(Error::Protocol(e)),
        },
        Expect::Status => match reply_payload(rx, CommandStatus::MIN_LEN, CommandStatus::MAX_LEN) {
            Err(e) => Outcome::Rejected(Error::Protocol(e)),
            Ok(p) => match StatusValue::from_byte_spec(p[0]) {
                None => Outcome::Rejected(Error::Protocol(PacketError::InvalidStatusCode)),
                Some(StatusValue::Success) => Outcome::Accepted,
                Some(v) => Outcome::Refused(Error::Status(v)),
            },
        },
        Expect::ChipId(c) => match reply_payload(rx, ChipId::MIN_LEN, ChipId::MAX_LEN) {
            Err(e) => Outcome::Rejected(Error::Protocol(e)),
            Ok(p) => if be32_at(p, 0) == c {
                Outcome::Accepted
            } else {
                Outcome::Refused(Error::ChipIdMismatch(be32_at(p, 0)))
            },
        },
        Expect::Crc(c) => match reply_payload(rx, Crc32Response::MIN_LEN, Crc32Response::MAX_LEN) {
            Err(e) => Outcome::Rejected(Error::Protocol(e)),
            Ok(p) => if be32_at(p, 0) == c {
                Outcome::Accepted
            } else {
                Outcome::Refused(Error::CrcMismatch)
            },
        },
    }
}

/// Checks the bytes captured for an exchange against what it expects.
pub fn check_reply(expect: Expect, rx: &Vec<u8>) -> (r: Outcome)
    ensures
        r == reply_outcome(expect, rx@),
{
    match expect {
        Expect::Nothing => Outcome::Accepted,
        Expect::Ack => match check_ack(rx) {
            Ok(_) => Outcome::Accepted,
            Err(e) => Outcome::Rejected(Error::Protocol(e)),
        },
        Expect::Status => match read_header(rx, CommandStatus::MIN_LEN, CommandStatus::MAX_LEN) {
            Err(e) => Outcome::Rejected(Error::Protocol(e)),
            Ok(p) => match StatusValue::from_byte(p[0]) {
                None => Outcome::Rejected(Error::Protocol(PacketError::InvalidStatusCode)),
                Some(StatusValue::Success) => Outcome::Accepted,
                Some(v) => Outcome::Refused(Error::Status(v)),
            },
        },
        Expect::ChipId(c) => match read_header(rx, ChipId::MIN_LEN, ChipId::MAX_LEN) {
            Err(e) => Outcome::Rejected(Error::Protocol(e)),
            Ok(p) => {
                let v = read_be32(&p, 0);
                if v == c {
                    Outcome::Accepted
                } else {
                    Outcome::Refused(Error::ChipIdMismatch(v))
                }
            },
        },
        Expect::Crc(c) => match read_header(rx, Crc32Response::MIN_LEN, Crc32Response::MAX_LEN) {
            Err(e) => Outcome::Rejected(Error::Protocol(e)),
            Ok(p) => {
                if read_be32(&p, 0) == c {
                    Outcome::Accepted
                } else {
                    Outcome::Refused(Error::CrcMismatch)
                }
            },
        },
    }
}

/// What the caller does after handing a reply to the session.
#[derive(Debug, Clone, Copy, PartialEq, Eq, Structural)]
pub enum Step {
    /// Perform the session's current exchange.
    Next,
    /// The session is over; for a check, whether the image matched.
    Done(bool),
    /// The session failed; the device needs a fresh bootloader entry.
    Failed(Error),
}

/// The decision state of a session: the exchange in flight, whether a CRC
/// mismatch was seen in a check, the failure owed once the refused reply has
/// been acknowledged, and whether the session is over.
pub struct SessionState {
    pub pos: int,
    pub mismatch: bool,
    pub pending: Option<Error>,
    pub finished: bool,
}

/// The state and step that follow outcome `o` of the exchange at `s.pos`, in a
/// plan of `len` exchanges.
/// - A rejected reply fails the session at once.
/// - A refused reply is acknowledged first: the next exchange (the host's ACK)
///   is performed, and the session fails after it. In a check, a CRC mismatch
///   is recorded instead, and after the ACK the session skips to the plan's
///   last exchange (the reset) and ends with `Done(false)`.
/// - An accepted reply moves on, or ends the session after the last exchange.
pub open spec fn next_state(len: int, check_only: bool, s: SessionState, o: Outcome) -> (SessionState, Step) {
    match o {
        Outcome::Rejected(e) => (SessionState { finished: true, ..s }, Step::Failed(e)),
        Outcome::Refused(e) => {
            if check_only && e == Error::CrcMismatch {
                if s.pos + 1 == len {
                    (SessionState { mismatch: true, finished: true, ..s }, Step::Done(false))
                } else {
                    (SessionState { pos: s.pos + 1, mismatch: true, ..s }, Step::Next)
                }
            } else if s.pos + 1 == len {
                (SessionState { finished: true, ..s }, Step::Failed(e))
            } else {
                (SessionState { pos: s.pos + 1, pending: Some(e), ..s }, Step::Next)
            }
        },
        Outcome::Accepted => match s.pending {
            Some(e) => (SessionState { finished: true, ..s }, Step::Failed(e)),
            None => if s.pos + 1 == len {
                (SessionState { finished: true, ..s }, Step::Done(!s.mismatch))
            } else {
                (SessionState { pos: if s.mismatch { len - 1 } else { s.pos + 1 }, ..s }, Step::Next)
            },
        },
    }
}

/// A running plan and its decision state; `check_only` marks a check, where a
/// CRC mismatch answers `Done(false)` instead of failing.
#[derive(Debug)]
pub struct Session {
    pub plan: Vec<Exchange>,
    pub pos: usize,
    pub check_only: bool,
    pub mismatch: bool,
    pub pending: Option<Error>,
    pub finished: bool,
}

impl Session {
    /// The exchange in flight exists until the session is finished.
    pub open spec fn wf(&self) -> bool {
        !self.finished ==> self.pos < self.plan@.len()
    }

    pub open spec fn state(&self) -> SessionState {
        SessionState { pos: self.pos as int, mismatch: self.mismatch, pending: self.pending, finished: self.finished }
    }

    /// A session at the first exchange of `plan`.
    pub fn new(plan: Vec<Exchange>, check_only: bool) -> (r: Session)
        requires
            plan@.len() >= 1,
        ensures
            r.wf(),
            r.state() == (SessionState { pos: 0, mismatch: false, pending: None, finished: false }),
            r.check_only == check_only,
            plan_model(r.plan@) == plan_model(plan@),
    {
        Session { plan, pos: 0, check_only, mismatch: false, pending: None, finished: false }
    }

    /// The exchange to perform now.
    pub fn current(&self) -> (r: &Exchange)
        requires
            self.wf(),
            !self.finished,
        ensures
            r@ == self.plan@[self.pos as int]@,
    {
        &self.plan[self.pos]
    }

    /// Takes the bytes captured for the current exchange and moves to the state
    /// and step that `next_state` gives for what they mean.
    pub fn advance(&mut self, rx: &Vec<u8>) -> (r: Step)
        requires
            old(self).wf(),
            !old(self).finished,
        ensures
            final(self).wf(),
            plan_model(final(self).plan@) == plan_model(old(self).plan@),
            final(self).check_only == old(self).check_only,
            (final(self).state(), r) == next_state(
                old(self).plan@.len() as int,
                old(self).check_only,
                old(self).state(),
                reply_outcome(old(self).plan@[old(self).pos as int].expect, rx@),
            ),
    {
        let len = self.plan.len();
        let outcome = check_reply(self.plan[self.pos].expect, rx);
        match outcome {
            Outcome::Rejected(e) => {
                self.finished = true;
                Step::Failed(e)
            },
            Outcome::Refused(e) => {
                if self.check_only && e == Error::CrcMismatch {
                    self.mismatch = true;
                    if self.pos + 1 == len {
                        self.finished = true;
                        Step::Done(false)
                    } else {
                        self.pos = self.pos + 1;
                        Step::Next
                    }
                } else if self.pos + 1 == len {
                    self.finished = true;
                    Step::Failed(e)
                } else {
                    self.pos = self.pos + 1;
                    self.pending = Some(e);
                    Step::Next
                }
            },
            Outcome::Accepted => {
                match self.pending {
                    Some(e) => {
                        self.finished = true;
                        Step::Failed(e)
                    },
                    None => {
                        if self.pos + 1 == len {
                            self.finished = true;
                            Step::Done(!self.mismatch)
                        } else {
                            if self.mismatch {
                                self.pos = len - 1;
                            } else {
                                self.pos = self.pos + 1;
                            }
                            Step::Next
                        }
                    },
                }
            },
        }
    }
}

/// A check plan ends with the reset; once a check has recorded a CRC mismatch
/// it never answers `Done(true)`, and after the mismatch has been acknowledged
/// the next exchange is that reset.
pub proof fn lemma_mismatch_ends_with_reset(segs: Seq<Segment>, mask: usize, chip_id: u32, s: SessionState, o: Outcome)
    requires
        s.mismatch,
        s.pending is None,
        0 <= s.pos < match_plan(segs, mask, chip_id).len(),
    ensures
        match_plan(segs, mask, chip_id).last() == reset_plan()[0],
        next_state(match_plan(segs, mask, chip_id).len() as int, true, s, o).1 != Step::Done(true),
        o == Outcome::Accepted && s.pos + 1 < match_plan(segs, mask, chip_id).len() ==>
            next_state(match_plan(segs, mask, chip_id).len() as int, true, s, o).0.pos
                == match_plan(segs, mask, chip_id).len() - 1,
{
}

/// Segments whose start shares a bit with the SRAM mask are never written: each
/// segment a flash writes lies outside the aperture and comes from the image,
/// and each segment of the image outside the aperture is written.
pub proof fn lemma_ram_segments_never_written(segs: Seq<Segment>, mask: usize)
    ensures
        forall|i: int| 0 <= i < flash_segments(segs, mask).len() ==>
            (#[trigger] flash_segments(segs, mask)[i]).start & mask == 0 && segs.contains(flash_segments(segs, mask)[i]),
        forall|i: int| 0 <= i < segs.len() && #[trigger] segs[i].start & mask == 0 ==>
            flash_segments(segs, mask).contains(segs[i]),
    decreases segs.len(),
{
    if segs.len() > 0 {
        let prev = segs.drop_last();
        lemma_ram_segments_never_written(prev, mask);
        let fs = flash_segments(segs, mask);
        let fp = flash_segments(prev, mask);
        if segs.last().start & mask == 0 {
            assert(fs == fp.push(segs.last()));
        } else {
            assert(fs == fp);
        }
        assert forall|i: int| 0 <= i < fs.len() implies (#[trigger] fs[i]).start & mask == 0 && segs.contains(fs[i]) by {
            if i < fp.len() {
                assert(fs[i] == fp[i]);
                assert(prev.contains(fp[i]));
                let j = choose|j: int| 0 <= j < prev.len() && prev[j] == fp[i];
                assert(segs[j] == fs[i]);
            } else {
                assert(fs[i] == segs.last());
                assert(segs[segs.len() - 1] == fs[i]);
            }
        }
        assert forall|i: int| 0 <= i < segs.len() && #[trigger] segs[i].start & mask == 0 implies fs.contains(segs[i]) by {
            if i < segs.len() - 1 {
                assert(prev[i] == segs[i]);
                assert(fp.contains(prev[i]));
                let j = choose|j: int| 0 <= j < fp.len() && fp[j] == prev[i];
                assert(fs[j] == fp[j]);
            } else {
                assert(fs[fs.len() - 1] == segs[i]);
            }
        }
    }
}

/// Chunking keeps the bytes in order, fills every chunk but the last with
/// `MAX_PAYLOAD` bytes, and leaves the last one between 1 and `MAX_PAYLOAD` bytes.
pub proof fn lemma_chunks_shape(data: Seq<u8>)
    requires
        data.len() >= 1,
    ensures
        chunks(data).flatten() == data,
        chunks(data).len() >= 1,
        forall|i: int| 0 <= i < chunks(data).len() - 1 ==> #[trigger] chunks(data)[i].len() == MAX_PAYLOAD,
        1 <= chunks(data).last().len() <= MAX_PAYLOAD,
    decreases data.len(),
{
    if data.len() > MAX_PAYLOAD {
        let rest = data.subrange(MAX_PAYLOAD as int, data.len() as int);
        lemma_chunks_shape(rest);
        let c = chunks(data);
        assert(c.drop_first() =~= chunks(rest));
        assert(data =~= data.subrange(0, MAX_PAYLOAD as int) + rest);
        assert forall|i: int| 0 <= i < c.len() - 1 implies #[trigger] c[i].len() == MAX_PAYLOAD by {
            if i > 0 {
                assert(c[i] == chunks(rest)[i - 1]);
            }
        }
    } else {
        assert(chunks(data).drop_first() =~= Seq::<Seq<u8>>::empty());
        assert(Seq::<Seq<u8>>::empty().flatten() =~= Seq::<u8>::empty());
        assert(data + Seq::<u8>::empty() =~= data);
        assert(chunks(data).flatten() =~= data);
    }
}

/// A NACK before any ACK in the captured bytes fails any exchange that awaits
/// a reply with `Nack`.
pub proof fn lemma_nack_fails(expect: Expect, rx: Seq<u8>, j: int)
    requires
        expect != Expect::Nothing,
        0 <= j < rx.len(),
        rx[j] == NACK_BYTE,
        forall|k: int| 0 <= k < j ==> rx[k] != ACK_BYTE,
    ensures
        reply_outcome(expect, rx) == Outcome::Rejected(Error::Protocol(PacketError::Nack)),
{
    lemma_scan_nack(rx, 0, j);
}

proof fn lemma_scan_nack(rx: Seq<u8>, i: int, j: int)
    requires
        0 <= i <= j < rx.len(),
        rx[j] == NACK_BYTE,
        forall|k: int| 0 <= k < j ==> rx[k] != ACK_BYTE,
    ensures
        ack_scan_from(rx, i) == Err::<int, PacketError>(PacketError::Nack),
    decreases j - i,
{
    if i < j && rx[i] != NACK_BYTE {
        lemma_scan_nack(rx, i + 1, j);
    }
}

/// Each exchange that checks a reply's value is followed by the host's ACK.
pub proof fn lemma_checks_followed_by_host_ack(chip_id: u32, address: u32, size: u32, expected: u32)
    ensures
        initialize_plan(chip_id)[1].expect == Expect::ChipId(chip_id) && initialize_plan(chip_id)[2] == host_ack(),
        status_plan()[0].expect == Expect::Status && status_plan()[1] == host_ack(),
        crc_plan(address, size, expected)[0].expect == Expect::Crc(expected) && crc_plan(address, size, expected)[1] == host_ack(),
{
}

/// A reply that is well formed but fails its check is acknowledged before the
/// session fails: the next exchange is performed, and after it the session
/// fails with the check's error, whatever that exchange captured.
pub proof fn lemma_refused_reply_acknowledged(len: int, check_only: bool, s: SessionState, e: Error, rx: Seq<u8>)
    requires
        s.pending is None,
        0 <= s.pos,
        s.pos + 1 < len,
        !(check_only && e == Error::CrcMismatch),
    ensures
        next_state(len, check_only, s, Outcome::Refused(e)).1 == Step::Next,
        next_state(len, check_only, s, Outcome::Refused(e)).0.pos == s.pos + 1,
        next_state(
            len,
            check_only,
            next_state(len, check_only, s, Outcome::Refused(e)).0,
            reply_outcome(Expect::Nothing, rx),
        ).1 == Step::Failed(e),
{
}

} // verus!
