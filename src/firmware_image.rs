//! Firmware images: Intel HEX records assembled into contiguous, CRC-tagged segments.
use crate::commands::{append_bytes, be32_at, read_be32};
use ihex::{ReaderError, Record};
use vstd::prelude::*;
use vstd::string::StringSliceAdditionalSpecFns;
use vstd::utf8::{
    encode_utf8_valid_utf8, is_char_boundary, is_char_boundary_iff_not_is_continuation_byte,
    is_char_boundary_start_end_of_seq, is_continuation_byte, length_of_first_scalar, pop_first_scalar,
    valid_first_scalar, valid_utf8,
};

verus! {

/// IEEE CRC32 of a byte sequence (reflected, initial and final value 0xFFFFFFFF),
/// as the bootloader's CRC32 command computes it.
pub uninterp spec fn crc32_ieee(data: Seq<u8>) -> u32;

/// Relies on crc::crc32::checksum_ieee: the IEEE CRC32 of the bytes, which depends on them alone.
#[verifier::external_body]
fn checksum_ieee(data: &Vec<u8>) -> (r: u32)
    ensures
        r == crc32_ieee(data@),
{
    crc::crc32::checksum_ieee(data.as_slice())
}

#[derive(Debug, Clone, Copy, PartialEq, Eq, Structural)]
pub enum Error {
    EndOfFileInMiddleOfFile,
    HexParse,
    UnhandledRecord,
    /// A run of data reaches past the 32-bit address space that HEX records address.
    AddressOverflow,
    InvalidSegment,
}

/// Size of the 32-bit address space.
pub const ADDRESS_SPACE: u64 = 0x1_0000_0000;

/// A contiguous run of bytes for one flash region, with the CRC32 of its bytes.
#[derive(Debug)]
pub struct Segment {
    pub start: usize,
    pub data: Vec<u8>,
    pub crc: u32,
}

impl Segment {
    /// Holds at least one byte, lies within the 32-bit address space, and
    /// carries the CRC32 of its bytes.
    pub open spec fn wf(&self) -> bool {
        &&& self.data@.len() >= 1
        &&& self.start + self.data@.len() <= ADDRESS_SPACE
        &&& self.crc == crc32_ieee(self.data@)
    }

    /// Address and bytes of the segment.
    pub open spec fn model(&self) -> (int, Seq<u8>) {
        (self.start as int, self.data@)
    }

    /// A segment at `start` that takes over the bytes of `init_data` and carries their CRC32.
    pub fn new(start: usize, init_data: &mut Vec<u8>) -> (r: Segment)
        ensures
            r.start == start,
            r.data@ == old(init_data)@,
            r.crc == crc32_ieee(r.data@),
            final(init_data)@.len() == 0,
    {
        let mut data: Vec<u8> = Vec::new();
        data.append(init_data);
        let crc = checksum_ieee(&data);
        Segment { start, data, crc }
    }

    /// Tells whether the segment is well formed, recomputing its CRC32.
    pub fn is_valid(&self) -> (r: bool)
        ensures
            r == self.wf(),
    {
        let len = self.data.len();
        if len == 0 || self.start as u64 > ADDRESS_SPACE || len as u64 > ADDRESS_SPACE - self.start as u64 {
            return false;
        }
        checksum_ieee(&self.data) == self.crc
    }
}

/// Segments in the order in which the HEX file gave them.
#[derive(Debug)]
pub struct FirmwareImage {
    pub segments: Vec<Segment>,
}

pub open spec fn segment_models(segs: Seq<Segment>) -> Seq<(int, Seq<u8>)> {
    segs.map_values(|s: Segment| s.model())
}

impl FirmwareImage {
    /// Every segment is well formed.
    pub open spec fn wf(&self) -> bool {
        forall|i: int| 0 <= i < self.segments@.len() ==> #[trigger] self.segments@[i].wf()
    }

    pub open spec fn model(&self) -> Seq<(int, Seq<u8>)> {
        segment_models(self.segments@)
    }
}

/// Why a line of HEX text is not a record.
#[derive(Debug, Clone, Copy, PartialEq, Eq, Structural)]
pub enum LineError {
    MissingStartCode,
    Malformed,
}

/// One Intel HEX record.
#[derive(Debug)]
pub enum HexRecord {
    Data { offset: u16, value: Vec<u8> },
    EndOfFile,
    ExtendedSegmentAddress(u16),
    StartSegmentAddress { cs: u16, ip: u16 },
    ExtendedLinearAddress(u16),
    StartLinearAddress(u32),
}

/// What the segmentation reads of a record.
pub enum RecordModel {
    Data(u16, Seq<u8>),
    EndOfFile,
    ExtendedSegmentAddress(u16),
    StartSegmentAddress,
    ExtendedLinearAddress(u16),
    StartLinearAddress,
}

impl View for HexRecord {
    type V = RecordModel;

    open spec fn view(&self) -> RecordModel {
        match self {
            HexRecord::Data { offset, value } => RecordModel::Data(*offset, value@),
            HexRecord::EndOfFile => RecordModel::EndOfFile,
            HexRecord::ExtendedSegmentAddress(a) => RecordModel::ExtendedSegmentAddress(*a),
            HexRecord::StartSegmentAddress { .. } => RecordModel::StartSegmentAddress,
            HexRecord::ExtendedLinearAddress(a) => RecordModel::ExtendedLinearAddress(*a),
            HexRecord::StartLinearAddress(_) => RecordModel::StartLinearAddress,
        }
    }
}

/// The record that a line of HEX text holds, or why it holds none.
pub uninterp spec fn hex_record(line: Seq<u8>) -> Result<RecordModel, LineError>;

/// Relies on ihex::Record::from_record_string: the record, or the reason the
/// line is not one, depends on the line's text alone, and a line that does not
/// begin with ':' (an empty one included) has no start code.
#[verifier::external_body]
fn read_record(line: &str) -> (r: Result<HexRecord, LineError>)
    ensures
        match r {
            Ok(rec) => hex_record(line.spec_bytes()) == Ok::<RecordModel, LineError>(rec@),
            Err(e) => hex_record(line.spec_bytes()) == Err::<RecordModel, LineError>(e),
        },
        (line@.len() == 0 || line@[0] != ':') ==> (r matches Err(LineError::MissingStartCode)),
{
    match Record::from_record_string(line) {
        Ok(Record::Data { offset, value }) => Ok(HexRecord::Data { offset, value }),
        Ok(Record::EndOfFile) => Ok(HexRecord::EndOfFile),
        Ok(Record::ExtendedSegmentAddress(a)) => Ok(HexRecord::ExtendedSegmentAddress(a)),
        Ok(Record::StartSegmentAddress { cs, ip }) => Ok(HexRecord::StartSegmentAddress { cs, ip }),
        Ok(Record::ExtendedLinearAddress(a)) => Ok(HexRecord::ExtendedLinearAddress(a)),
        Ok(Record::StartLinearAddress(a)) => Ok(HexRecord::StartLinearAddress(a)),
        Err(ReaderError::MissingStartCode) => Err(LineError::MissingStartCode),
        Err(_) => Err(LineError::Malformed),
    }
}

/// State of the segmentation after a prefix of the records: the current base
/// address, the open segment, whether an end-of-file record was seen, whether a
/// second one ended the file, and the segments closed so far.
pub struct Assembly {
    pub base: u32,
    pub start: int,
    pub data: Seq<u8>,
    pub eof: bool,
    pub done: bool,
    pub segs: Seq<(int, Seq<u8>)>,
}

/// The closed segments, followed by the open one when it holds any byte.
pub open spec fn closed(a: Assembly) -> Seq<(int, Seq<u8>)> {
    if a.data.len() > 0 {
        a.segs.push((a.start, a.data))
    } else {
        a.segs
    }
}

/// One record applied to the segmentation state.
pub open spec fn assemble_step(a: Assembly, r: RecordModel) -> Result<Assembly, Error> {
    if a.done {
        Ok(a)
    } else {
        match r {
            RecordModel::Data(offset, value) => {
                if a.eof {
                    Err(Error::EndOfFileInMiddleOfFile)
                } else if value.len() == 0 {
                    Ok(a)
                } else {
                    let addr = (a.base | offset as u32) as int;
                    let contiguous = a.start + a.data.len() == addr;
                    let start = if contiguous { a.start } else { addr };
                    let data = if contiguous { a.data + value } else { value };
                    if start + data.len() > ADDRESS_SPACE {
                        Err(Error::AddressOverflow)
                    } else {
                        Ok(Assembly {
                            start,
                            data,
                            segs: if contiguous { a.segs } else { closed(a) },
                            ..a
                        })
                    }
                }
            },
            RecordModel::ExtendedSegmentAddress(v) => Ok(Assembly { base: (v as u32) << 4u32, ..a }),
            RecordModel::ExtendedLinearAddress(v) => Ok(Assembly { base: (v as u32) << 16u32, ..a }),
            RecordModel::EndOfFile => {
                if a.eof {
                    Ok(Assembly { done: true, ..a })
                } else {
                    Ok(Assembly { eof: true, ..a })
                }
            },
            RecordModel::StartSegmentAddress => Ok(a),
            RecordModel::StartLinearAddress => Err(Error::UnhandledRecord),
        }
    }
}

pub open spec fn initial_assembly() -> Assembly {
    Assembly { base: 0, start: 0, data: Seq::empty(), eof: false, done: false, segs: Seq::empty() }
}

/// The segmentation state after all of `rs`, or the first error.
pub open spec fn assemble(rs: Seq<RecordModel>) -> Result<Assembly, Error>
    decreases rs.len(),
{
    if rs.len() == 0 {
        Ok(initial_assembly())
    } else {
        match assemble(rs.drop_last()) {
            Ok(a) => assemble_step(a, rs.last()),
            Err(e) => Err(e),
        }
    }
}

/// The segments, as (start, bytes), that a sequence of records describes.
pub open spec fn image_of(rs: Seq<RecordModel>) -> Result<Seq<(int, Seq<u8>)>, Error> {
    match assemble(rs) {
        Ok(a) => Ok(closed(a)),
        Err(e) => Err(e),
    }
}

pub open spec fn image_result(r: Result<FirmwareImage, Error>) -> Result<Seq<(int, Seq<u8>)>, Error> {
    match r {
        Ok(img) => Ok(img.model()),
        Err(e) => Err(e),
    }
}

pub open spec fn record_models(rs: Seq<HexRecord>) -> Seq<RecordModel> {
    rs.map_values(|r: HexRecord| r@)
}

/// Every segment holds a byte, and no segment ends where the next one starts:
/// each is a maximal contiguous run.
pub open spec fn maximal_runs(segs: Seq<(int, Seq<u8>)>) -> bool {
    &&& forall|i: int| 0 <= i < segs.len() ==> (#[trigger] segs[i]).1.len() >= 1
    &&& forall|i: int| 0 <= i < segs.len() - 1 ==> (#[trigger] segs[i]).0 + segs[i].1.len() != segs[i + 1].0
}

/// What holds of every segmentation state: the closed segments are maximal
/// runs, the open segment does not continue the last closed one, and it is
/// empty only before any segment was closed.
pub open spec fn assembly_inv(a: Assembly) -> bool {
    &&& maximal_runs(a.segs)
    &&& (a.data.len() == 0 ==> a.segs.len() == 0)
    &&& (a.segs.len() > 0 ==> a.segs.last().0 + a.segs.last().1.len() != a.start)
}

proof fn lemma_closed_maximal(a: Assembly)
    requires
        assembly_inv(a),
    ensures
        maximal_runs(closed(a)),
{
    if a.data.len() > 0 {
        let c = a.segs.push((a.start, a.data));
        assert forall|i: int| 0 <= i < c.len() - 1 implies (#[trigger] c[i]).0 + c[i].1.len() != c[i + 1].0 by {
            if i < a.segs.len() - 1 {
                assert(c[i] == a.segs[i] && c[i + 1] == a.segs[i + 1]);
            }
        }
        assert forall|i: int| 0 <= i < c.len() implies (#[trigger] c[i]).1.len() >= 1 by {
            if i < a.segs.len() {
                assert(c[i] == a.segs[i]);
            }
        }
    }
}

proof fn lemma_step_inv(a: Assembly, r: RecordModel)
    requires
        assembly_inv(a),
        assemble_step(a, r) is Ok,
    ensures
        assembly_inv(assemble_step(a, r)->Ok_0),
{
    if !a.done {
        if let RecordModel::Data(offset, value) = r {
            if value.len() > 0 {
                lemma_closed_maximal(a);
            }
        }
    }
}

proof fn lemma_assemble_inv(rs: Seq<RecordModel>)
    requires
        assemble(rs) is Ok,
    ensures
        assembly_inv(assemble(rs)->Ok_0),
    decreases rs.len(),
{
    if rs.len() > 0 {
        lemma_assemble_inv(rs.drop_last());
        lemma_step_inv(assemble(rs.drop_last())->Ok_0, rs.last());
    }
}

/// The segments that any sequence of records describes are maximal
/// contiguous runs of at least one byte.
pub proof fn lemma_segments_maximal(rs: Seq<RecordModel>)
    requires
        image_of(rs) is Ok,
    ensures
        maximal_runs(image_of(rs)->Ok_0),
{
    lemma_assemble_inv(rs);
    lemma_closed_maximal(assemble(rs)->Ok_0);
}

proof fn lemma_assemble_prefix(rs: Seq<HexRecord>, i: int)
    requires
        0 <= i < rs.len(),
    ensures
        assemble(record_models(rs).subrange(0, i + 1)) == match assemble(record_models(rs).subrange(0, i)) {
            Ok(a) => assemble_step(a, rs[i]@),
            Err(e) => Err(e),
        },
{
    let ms = record_models(rs);
    assert(ms.subrange(0, i + 1).drop_last() =~= ms.subrange(0, i));
    assert(ms.subrange(0, i + 1).last() == rs[i]@);
}

/// Once a prefix of the records fails, the whole sequence fails the same way.
proof fn lemma_assemble_error_persists(rs: Seq<RecordModel>, i: int)
    requires
        0 <= i <= rs.len(),
        assemble(rs.subrange(0, i)) is Err,
    ensures
        assemble(rs) == assemble(rs.subrange(0, i)),
    decreases rs.len() - i,
{
    if i == rs.len() {
        assert(rs.subrange(0, i) =~= rs);
    } else {
        assert(rs.subrange(0, i + 1).drop_last() =~= rs.subrange(0, i));
        lemma_assemble_error_persists(rs, i + 1);
    }
}

proof fn lemma_models_push(segs: Seq<Segment>, s: Segment)
    ensures
        segment_models(segs.push(s)) == segment_models(segs).push(s.model()),
{
    assert(segment_models(segs.push(s)) =~= segment_models(segs).push(s.model()));
}

impl FirmwareImage {
    /// Assembles records, given in file order, into segments: a data record
    /// that continues the open segment extends it, any other starts a new one.
    /// A data record without bytes changes nothing. A second end-of-file record
    /// ends the file; data after the first one is an error. HEX records address
    /// 32 bits, so a run that would reach past them is refused.
    pub fn from_records(records: Vec<HexRecord>) -> (r: Result<FirmwareImage, Error>)
        ensures
            image_result(r) == image_of(record_models(records@)),
            r matches Ok(img) ==> img.wf() && maximal_runs(img.model()),
    {
        let mut segments: Vec<Segment> = Vec::new();
        let mut base: u32 = 0;
        let mut start: u32 = 0;
        let mut data: Vec<u8> = Vec::new();
        let mut eof = false;
        let mut done = false;
        let mut i: usize = 0;
        assert(record_models(records@).subrange(0, 0) =~= Seq::<RecordModel>::empty());
        assert(segment_models(segments@) =~= Seq::<(int, Seq<u8>)>::empty());
        while i < records.len()
            invariant
                i <= records@.len(),
                assemble(record_models(records@).subrange(0, i as int)) == Ok::<Assembly, Error>(
                    Assembly {
                        base,
                        start: start as int,
                        data: data@,
                        eof,
                        done,
                        segs: segment_models(segments@),
                    },
                ),
                forall|k: int| 0 <= k < segments@.len() ==> #[trigger] segments@[k].wf(),
                start + data@.len() <= ADDRESS_SPACE,
            decreases records@.len() - i,
        {
            proof {
                lemma_assemble_prefix(records@, i as int);
            }
            if !done {
                match &records[i] {
                    HexRecord::Data { offset, value } => {
                        if eof {
                            proof {
                                lemma_assemble_error_persists(record_models(records@), i + 1);
                            }
                            return Err(Error::EndOfFileInMiddleOfFile);
                        }
                        let addr: u32 = base | (*offset as u32);
                        let len = data.len();
                        if value.len() == 0 {
                            // no bytes: the open segment stays as it is
                        } else if start as u64 + len as u64 != addr as u64 {
                            if len > 0 {
                                let ghost before = segments@;
                                let seg = Segment::new(start as usize, &mut data);
                                segments.push(seg);
                                proof {
                                    lemma_models_push(before, seg);
                                }
                            }
                            start = addr;
                            data = Vec::new();
                        }
                        if value.len() as u64 > ADDRESS_SPACE - start as u64 - data.len() as u64 {
                            proof {
                                lemma_assemble_error_persists(record_models(records@), i + 1);
                            }
                            return Err(Error::AddressOverflow);
                        }
                        append_bytes(&mut data, value);
                    },
                    HexRecord::ExtendedSegmentAddress(v) => {
                        base = (*v as u32) << 4u32;
                    },
                    HexRecord::ExtendedLinearAddress(v) => {
                        base = (*v as u32) << 16u32;
                    },
                    HexRecord::EndOfFile => {
                        if eof {
                            done = true;
                        } else {
                            eof = true;
                        }
                    },
                    HexRecord::StartSegmentAddress { .. } => {},
                    HexRecord::StartLinearAddress(_) => {
                        proof {
                            lemma_assemble_error_persists(record_models(records@), i + 1);
                        }
                        return Err(Error::UnhandledRecord);
                    },
                }
            }
            i = i + 1;
        }
        assert(record_models(records@).subrange(0, records@.len() as int) =~= record_models(records@));
        if data.len() > 0 {
            let ghost before = segments@;
            let seg = Segment::new(start as usize, &mut data);
            segments.push(seg);
            proof {
                lemma_models_push(before, seg);
            }
        }
        proof {
            lemma_segments_maximal(record_models(records@));
        }
        Ok(FirmwareImage { segments })
    }
}

/// The lines of `b[start..]` separated by CR LF, scanning from `i`.
pub open spec fn lines_from(b: Seq<u8>, start: int, i: int) -> Seq<Seq<u8>>
    decreases b.len() - i,
{
    if i + 1 >= b.len() {
        seq![b.subrange(start, b.len() as int)]
    } else if b[i] == 13 && b[i + 1] == 10 {
        seq![b.subrange(start, i)] + lines_from(b, i + 2, i + 2)
    } else {
        lines_from(b, start, i + 1)
    }
}

/// The lines of a text separated by CR LF; the text after the last separator
/// is a line too, empty when the text ends with one.
pub open spec fn crlf_lines(b: Seq<u8>) -> Seq<Seq<u8>> {
    lines_from(b, 0, 0)
}

/// The record of one line; a line without a start code counts as end of file.
pub open spec fn line_record(line: Seq<u8>) -> Result<RecordModel, Error> {
    match hex_record(line) {
        Ok(r) => Ok(r),
        Err(LineError::MissingStartCode) => Ok(RecordModel::EndOfFile),
        Err(LineError::Malformed) => Err(Error::HexParse),
    }
}

/// The records of the lines, or `HexParse` for the first malformed line.
pub open spec fn records_of(lines: Seq<Seq<u8>>) -> Result<Seq<RecordModel>, Error>
    decreases lines.len(),
{
    if lines.len() == 0 {
        Ok(Seq::empty())
    } else {
        match records_of(lines.drop_last()) {
            Err(e) => Err(e),
            Ok(rs) => match line_record(lines.last()) {
                Ok(r) => Ok(rs.push(r)),
                Err(e) => Err(e),
            },
        }
    }
}

/// The segments that a HEX text describes.
pub open spec fn image_of_text(b: Seq<u8>) -> Result<Seq<(int, Seq<u8>)>, Error> {
    match records_of(crlf_lines(b)) {
        Ok(rs) => image_of(rs),
        Err(e) => Err(e),
    }
}

/// In valid UTF-8 a byte that follows an ASCII byte starts a character.
proof fn lemma_after_ascii(b: Seq<u8>, i: int)
    requires
        valid_utf8(b),
        0 <= i,
        i + 1 < b.len(),
        b[i] <= 0x7f,
    ensures
        !is_continuation_byte(b[i + 1]),
    decreases b.len(),
{
    assert(valid_first_scalar(b));
    let l = length_of_first_scalar(b);
    let p = pop_first_scalar(b);
    assert(valid_utf8(p));
    if i < l {
        assert(i == 0);
        assert(l == 1);
        assert(p[0] == b[i + 1]);
        assert(valid_first_scalar(p));
    } else {
        assert(p[i - l] == b[i]);
        assert(p[i - l + 1] == b[i + 1]);
        lemma_after_ascii(p, i - l);
    }
}

/// Parses one line into a record, counting a line without a start code as end of file.
fn parse_line(line: &str) -> (r: Result<HexRecord, Error>)
    ensures
        match r {
            Ok(rec) => line_record(line.spec_bytes()) == Ok::<RecordModel, Error>(rec@),
            Err(e) => line_record(line.spec_bytes()) == Err::<RecordModel, Error>(e),
        },
        (line@.len() == 0 || line@[0] != ':') ==> (r matches Ok(HexRecord::EndOfFile)),
{
    match read_record(line) {
        Ok(rec) => Ok(rec),
        Err(LineError::MissingStartCode) => Ok(HexRecord::EndOfFile),
        Err(LineError::Malformed) => Err(Error::HexParse),
    }
}

proof fn lemma_records_push(lines: Seq<Seq<u8>>, line: Seq<u8>)
    ensures
        records_of(lines.push(line)) == match records_of(lines) {
            Err(e) => Err(e),
            Ok(rs) => match line_record(line) {
                Ok(r) => Ok(rs.push(r)),
                Err(e) => Err(e),
            },
        },
{
    assert(lines.push(line).drop_last() =~= lines);
}

proof fn lemma_records_error_persists(lines: Seq<Seq<u8>>, more: Seq<Seq<u8>>)
    requires
        records_of(lines) is Err,
    ensures
        records_of(lines + more) == records_of(lines),
    decreases more.len(),
{
    if more.len() == 0 {
        assert(lines + more =~= lines);
    } else {
        lemma_records_error_persists(lines, more.drop_last());
        assert((lines + more).drop_last() =~= lines + more.drop_last());
    }
}

proof fn lemma_record_models_push(rs: Seq<HexRecord>, r: HexRecord)
    ensures
        record_models(rs.push(r)) == record_models(rs).push(r@),
{
    assert(record_models(rs.push(r)) =~= record_models(rs).push(r@));
}

impl FirmwareImage {
    /// Parses the text of a HEX file, records separated by CR LF, into an image.
    pub fn new(file: &str) -> (r: Result<FirmwareImage, Error>)
        ensures
            image_result(r) == image_of_text(file.spec_bytes()),
            r matches Ok(img) ==> img.wf() && maximal_runs(img.model()),
    {
        let bytes = file.as_bytes();
        let ghost b = file.spec_bytes();
        let n = bytes.len();
        let mut rest: &str = file;
        let mut start: usize = 0;
        let mut i: usize = 0;
        let mut records: Vec<HexRecord> = Vec::new();
        let ghost mut done: Seq<Seq<u8>> = Seq::empty();
        assert(b.subrange(0, n as int) =~= b);
        assert(done + lines_from(b, 0, 0) =~= crlf_lines(b));
        assert(record_models(records@) =~= Seq::<RecordModel>::empty());
        while i < n && n - i > 1
            invariant
                b == file.spec_bytes(),
                bytes@ == b,
                n == b.len(),
                start <= i,
                i <= n,
                start <= n,
                rest.spec_bytes() == b.subrange(start as int, n as int),
                crlf_lines(b) == done + lines_from(b, start as int, i as int),
                records_of(done) == Ok::<Seq<RecordModel>, Error>(record_models(records@)),
            decreases n - i,
        {
            if bytes[i] == 13 && bytes[i + 1] == 10 {
                let ghost rb = rest.spec_bytes();
                proof {
                    encode_utf8_valid_utf8(rest@);
                    is_char_boundary_iff_not_is_continuation_byte(rb, (i - start) as int);
                }
                let (line, tail) = rest.split_at(i - start);
                let ghost tb = tail.spec_bytes();
                proof {
                    encode_utf8_valid_utf8(tail@);
                    assert(tb =~= b.subrange(i as int, n as int));
                    if i + 2 == n {
                        is_char_boundary_start_end_of_seq(tb);
                    } else {
                        lemma_after_ascii(tb, 1);
                        is_char_boundary_iff_not_is_continuation_byte(tb, 2);
                    }
                }
                let (_, next) = tail.split_at(2);
                proof {
                    assert(line.spec_bytes() =~= b.subrange(start as int, i as int));
                    assert(next.spec_bytes() =~= b.subrange(i + 2, n as int));
                    assert(done.push(b.subrange(start as int, i as int)) + lines_from(b, i + 2, i + 2)
                        =~= done + lines_from(b, start as int, i as int));
                    lemma_records_push(done, b.subrange(start as int, i as int));
                }
                match parse_line(line) {
                    Ok(rec) => {
                        proof {
                            lemma_record_models_push(records@, rec);
                        }
                        records.push(rec);
                    },
                    Err(e) => {
                        proof {
                            lemma_records_error_persists(
                                done.push(b.subrange(start as int, i as int)),
                                lines_from(b, i + 2, i + 2),
                            );
                        }
                        return Err(e);
                    },
                }
                proof {
                    done = done.push(b.subrange(start as int, i as int));
                }
                rest = next;
                start = i + 2;
                i = i + 2;
            } else {
                i = i + 1;
            }
        }
        proof {
            assert(crlf_lines(b) == done.push(b.subrange(start as int, n as int)));
            lemma_records_push(done, b.subrange(start as int, n as int));
        }
        match parse_line(rest) {
            Ok(rec) => {
                proof {
                    lemma_record_models_push(records@, rec);
                }
                records.push(rec);
            },
            Err(e) => {
                return Err(e);
            },
        }
        FirmwareImage::from_records(records)
    }
}

/// Where the linker places the customer configuration area.
pub const CCFG: usize = 0x1FFA8;

/// Offset of the bootloader configuration word within that area.
pub const BL_CONFIG_OFFSET: usize = 48;

/// Address of the bootloader configuration word.
pub const BL_CONFIG_REG: usize = CCFG | BL_CONFIG_OFFSET;

/// Bootloader configuration that keeps the serial bootloader reachable.
pub const BL_EXPECT: u32 = 0xC507_FEC5;

/// The segment's address range, ends included, holds the configuration word's address.
pub open spec fn covers_bl_config(s: Segment) -> bool {
    s.start <= BL_CONFIG_REG <= s.start + s.data@.len()
}

/// A segment that covers the configuration word holds, at `BL_CONFIG_OFFSET`
/// from its start, the expected big-endian configuration.
pub open spec fn bl_config_ok(s: Segment) -> bool {
    covers_bl_config(s) ==> s.data@.len() >= BL_CONFIG_OFFSET + 4 && be32_at(s.data@, BL_CONFIG_OFFSET as int) == BL_EXPECT
}

impl FirmwareImage {
    /// An image of the given segments, provided each is well formed.
    pub fn from_segments(segments: Vec<Segment>) -> (r: Result<FirmwareImage, Error>)
        ensures
            match r {
                Ok(img) => img.wf() && img.segments@ == segments@,
                Err(e) => e == Error::InvalidSegment && exists|i: int| 0 <= i < segments@.len() && !(#[trigger] segments@[i]).wf(),
            },
    {
        let mut i: usize = 0;
        while i < segments.len()
            invariant
                i <= segments@.len(),
                forall|k: int| 0 <= k < i ==> #[trigger] segments@[k].wf(),
            decreases segments@.len() - i,
        {
            if !segments[i].is_valid() {
                return Err(Error::InvalidSegment);
            }
            i = i + 1;
        }
        Ok(FirmwareImage { segments })
    }

    /// Tells whether every segment that covers the bootloader configuration
    /// word carries the expected configuration.
    pub fn bl_config_intact(&self) -> (r: bool)
        ensures
            r == forall|i: int| 0 <= i < self.segments@.len() ==> #[trigger] bl_config_ok(self.segments@[i]),
    {
        let mut i: usize = 0;
        while i < self.segments.len()
            invariant
                i <= self.segments@.len(),
                forall|k: int| 0 <= k < i ==> #[trigger] bl_config_ok(self.segments@[k]),
            decreases self.segments@.len() - i,
        {
            let seg = &self.segments[i];
            let len = seg.data.len();
            if seg.start <= BL_CONFIG_REG && BL_CONFIG_REG - seg.start <= len {
                if len < BL_CONFIG_OFFSET + 4 || read_be32(&seg.data, BL_CONFIG_OFFSET) != BL_EXPECT {
                    assert(!bl_config_ok(self.segments@[i as int]));
                    return false;
                }
            }
            i = i + 1;
        }
        true
    }
}

} // verus!
