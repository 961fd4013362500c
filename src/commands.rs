//! Bootloader command packets: framing, checksums, and the per-command codec.
use vstd::prelude::*;

verus! {

/// Sentinel the target sends when it accepted a packet.
pub const ACK_BYTE: u8 = 0xCC;

/// Sentinel the target sends when it rejected a packet.
pub const NACK_BYTE: u8 = 0x33;

/// Size of a request header: length, checksum and command byte.
pub const BASE_PACKET_SIZE: u8 = 3;

#[derive(Debug, Clone, Copy, PartialEq, Eq, Structural)]
pub enum Error {
    MaxPayloadExceeded,
    MinPayloadNotMet,
    NoAck,
    Nack,
    BadChecksum,
    BadCmdByte,
    PacketTooShort,
    InvalidCmdStatus,
    InvalidStatusCode,
}

/// Arithmetic sum of a byte sequence.
pub open spec fn byte_sum(s: Seq<u8>) -> nat
    decreases s.len(),
{
    if s.len() == 0 {
        0
    } else {
        byte_sum(s.drop_last()) + s.last() as nat
    }
}

/// Checksum byte of a request: command byte plus payload, mod 256.
pub open spec fn request_checksum(cmd: u8, payload: Seq<u8>) -> u8 {
    ((cmd as nat + byte_sum(payload)) % 256) as u8
}

/// Checksum byte of a reply: payload alone, mod 256.
pub open spec fn reply_checksum(payload: Seq<u8>) -> u8 {
    (byte_sum(payload) % 256) as u8
}

pub open spec fn zeros(n: nat) -> Seq<u8> {
    Seq::new(n, |i: int| 0u8)
}

/// A request packet `[len, checksum, cmd, payload..]` followed by `idle` zero bytes.
pub open spec fn frame(cmd: u8, payload: Seq<u8>, idle: nat) -> Seq<u8> {
    seq![(3 + payload.len()) as u8, request_checksum(cmd, payload), cmd] + payload + zeros(idle)
}

/// Serialization of a command: the framed packet, or a bound violation when the
/// packet length `3 + |payload|` lies outside `[min, max]`.
pub open spec fn framed(cmd: u8, payload: Seq<u8>, min: u8, max: u8, idle: nat) -> Result<Seq<u8>, Error> {
    if payload.len() + 3 < min {
        Err(Error::MinPayloadNotMet)
    } else if payload.len() + 3 > max {
        Err(Error::MaxPayloadExceeded)
    } else {
        Ok(frame(cmd, payload, idle))
    }
}

pub open spec fn bytes_result(r: Result<Vec<u8>, Error>) -> Result<Seq<u8>, Error> {
    match r {
        Ok(v) => Ok(v@),
        Err(e) => Err(e),
    }
}

proof fn lemma_byte_sum_push(s: Seq<u8>, i: int)
    requires
        0 <= i < s.len(),
    ensures
        byte_sum(s.subrange(0, i + 1)) == byte_sum(s.subrange(0, i)) + s[i] as nat,
{
    assert(s.subrange(0, i + 1).drop_last() =~= s.subrange(0, i));
}

/// Sum of `payload` mod 256, starting from `init`.
fn checksum_from(init: u8, payload: &Vec<u8>) -> (r: u8)
    ensures
        r as nat == (init as nat + byte_sum(payload@)) % 256,
{
    let mut sum: u8 = init;
    let mut i: usize = 0;
    while i < payload.len()
        invariant
            i <= payload@.len(),
            sum as nat == (init as nat + byte_sum(payload@.subrange(0, i as int))) % 256,
        decreases payload@.len() - i,
    {
        proof {
            lemma_byte_sum_push(payload@, i as int);
        }
        sum = ((sum as u16 + payload[i] as u16) % 256) as u8;
        i = i + 1;
    }
    assert(payload@.subrange(0, payload@.len() as int) =~= payload@);
    sum
}

/// Frames `payload` behind the command byte `cmd` and appends `idle` zero bytes.
pub(crate) fn frame_packet(cmd: u8, payload: Vec<u8>, min: u8, max: u8, idle: usize) -> (r: Result<Vec<u8>, Error>)
    requires
        idle <= 4096,
    ensures
        bytes_result(r) == framed(cmd, payload@, min, max, idle as nat),
{
    let len = payload.len();
    if len < 256 && (len as u16) + 3 < min as u16 {
        return Err(Error::MinPayloadNotMet);
    } else if len >= 256 || (len as u16) + 3 > max as u16 {
        return Err(Error::MaxPayloadExceeded);
    }
    let checksum = checksum_from(cmd, &payload);
    let mut out: Vec<u8> = vec![(len + 3) as u8, checksum, cmd];
    let mut i: usize = 0;
    while i < len
        invariant
            len == payload@.len(),
            i <= len,
            out@ == seq![(3 + len) as u8, checksum, cmd] + payload@.subrange(0, i as int),
        decreases len - i,
    {
        out.push(payload[i]);
        i = i + 1;
        assert(out@ == seq![(3 + len) as u8, checksum, cmd] + payload@.subrange(0, i as int));
    }
    let mut k: usize = 0;
    while k < idle
        invariant
            k <= idle,
            out@ == seq![(3 + len) as u8, checksum, cmd] + payload@ + zeros(k as nat),
        decreases idle - k,
    {
        out.push(0u8);
        k = k + 1;
        assert(out@ == seq![(3 + len) as u8, checksum, cmd] + payload@ + zeros(k as nat));
    }
    Ok(out)
}


/// ACK scan from position `i`: the index just past the first ACK, `Nack` when a
/// NACK comes first, `NoAck` when the buffer ends before either.
pub open spec fn ack_scan_from(bus: Seq<u8>, i: int) -> Result<int, Error>
    decreases bus.len() - i,
{
    if i < 0 || i >= bus.len() {
        Err(Error::NoAck)
    } else if bus[i] == ACK_BYTE {
        Ok(i + 1)
    } else if bus[i] == NACK_BYTE {
        Err(Error::Nack)
    } else {
        ack_scan_from(bus, i + 1)
    }
}

pub open spec fn ack_scan(bus: Seq<u8>) -> Result<int, Error> {
    ack_scan_from(bus, 0)
}

/// Walks the captured bytes left to right and returns the position just after
/// the first ACK; bytes before it are the echo of the outbound stream.
pub fn check_ack(from_bus: &Vec<u8>) -> (r: Result<usize, Error>)
    ensures
        match r {
            Ok(k) => ack_scan(from_bus@) == Ok::<int, Error>(k as int),
            Err(e) => ack_scan(from_bus@) == Err::<int, Error>(e),
        },
{
    let mut i: usize = 0;
    while i < from_bus.len()
        invariant
            i <= from_bus@.len(),
            ack_scan(from_bus@) == ack_scan_from(from_bus@, i as int),
        decreases from_bus@.len() - i,
    {
        let b = from_bus[i];
        if b == ACK_BYTE {
            return Ok(i + 1);
        } else if b == NACK_BYTE {
            return Err(Error::Nack);
        }
        i = i + 1;
    }
    Err(Error::NoAck)
}

/// The payload of a reply packet `[len, checksum, payload..]` that follows the
/// ACK in `bus`, for a reply variant whose full packet length (counting the
/// command byte that replies omit) lies in `[min, max]`.
pub open spec fn reply_payload(bus: Seq<u8>, min: u8, max: u8) -> Result<Seq<u8>, Error> {
    match ack_scan(bus) {
        Err(e) => Err(e),
        Ok(k) => {
            if k + 2 > bus.len() {
                Err(Error::PacketTooShort)
            } else {
                let len = bus[k] as int;
                let sum = bus[k + 1];
                if len < min - 1 {
                    Err(Error::MinPayloadNotMet)
                } else if len > max - 1 {
                    Err(Error::MaxPayloadExceeded)
                } else if k + len > bus.len() {
                    Err(Error::PacketTooShort)
                } else if reply_checksum(bus.subrange(k + 2, k + len)) != sum {
                    Err(Error::BadChecksum)
                } else {
                    Ok(bus.subrange(k + 2, k + len))
                }
            }
        }
    }
}

pub(crate) fn copy_range(src: &Vec<u8>, start: usize, end: usize) -> (r: Vec<u8>)
    requires
        start <= end <= src@.len(),
    ensures
        r@ == src@.subrange(start as int, end as int),
{
    let mut out: Vec<u8> = Vec::new();
    let mut i: usize = start;
    while i < end
        invariant
            start <= i <= end,
            end <= src@.len(),
            out@ == src@.subrange(start as int, i as int),
        decreases end - i,
    {
        out.push(src[i]);
        i = i + 1;
        assert(out@ == src@.subrange(start as int, i as int));
    }
    out
}

/// Locates the ACK in `from_bus` and reads the reply packet after it, checking
/// its length bounds and checksum.
pub(crate) fn read_header(from_bus: &Vec<u8>, min: u8, max: u8) -> (r: Result<Vec<u8>, Error>)
    requires
        min >= 3,
    ensures
        bytes_result(r) == reply_payload(from_bus@, min, max),
        r is Ok ==> min - 3 <= r->Ok_0@.len() <= max - 3,
{
    let k = match check_ack(from_bus) {
        Ok(k) => k,
        Err(e) => return Err(e),
    };
    if from_bus.len() < 2 || k > from_bus.len() - 2 {
        return Err(Error::PacketTooShort);
    }
    let len = from_bus[k] as usize;
    let sum = from_bus[k + 1];
    if len < min as usize - 1 {
        return Err(Error::MinPayloadNotMet);
    } else if len >= max as usize {
        return Err(Error::MaxPayloadExceeded);
    }
    if len > from_bus.len() - k {
        return Err(Error::PacketTooShort);
    }
    let payload = copy_range(from_bus, k + 2, k + len);
    let calc = checksum_from(0, &payload);
    if calc != sum {
        return Err(Error::BadChecksum);
    }
    Ok(payload)
}

/// Every request packet starts with its length `3 + |payload|`, its checksum
/// `(cmd + sum of payload) mod 256` and its command byte, and is as long as the
/// header, payload and idle bytes together.
pub proof fn lemma_frame_header(cmd: u8, payload: Seq<u8>, idle: nat)
    ensures
        frame(cmd, payload, idle).len() == 3 + payload.len() + idle,
        frame(cmd, payload, idle)[0] == (3 + payload.len()) as u8,
        frame(cmd, payload, idle)[1] as nat == (cmd as nat + byte_sum(payload)) % 256,
        frame(cmd, payload, idle)[2] == cmd,
{
}

/// A command of fixed size serializes to exactly its length plus its idle bytes.
pub proof fn lemma_fixed_size_length(cmd: u8, payload: Seq<u8>, min: u8, max: u8, idle: nat)
    requires
        min == max,
        framed(cmd, payload, min, max, idle) is Ok,
    ensures
        framed(cmd, payload, min, max, idle)->Ok_0.len() == min + idle,
{
}

/// A reply packet as the target sends it: `[2 + |payload|, checksum, payload..]`.
pub open spec fn reply_frame(payload: Seq<u8>) -> Seq<u8> {
    seq![(2 + payload.len()) as u8, reply_checksum(payload)] + payload
}

proof fn lemma_scan_skips(bus: Seq<u8>, i: int, j: int)
    requires
        0 <= i <= j < bus.len(),
        bus[j] == ACK_BYTE,
        forall|k: int| i <= k < j ==> bus[k] != ACK_BYTE && bus[k] != NACK_BYTE,
    ensures
        ack_scan_from(bus, i) == Ok::<int, Error>(j + 1),
    decreases j - i,
{
    if i < j {
        lemma_scan_skips(bus, i + 1, j);
    }
}

/// Parsing a captured buffer that holds an echo free of sentinels, the ACK and
/// a well-formed reply gives back the reply's payload.
pub proof fn lemma_reply_round_trip(echo: Seq<u8>, payload: Seq<u8>, tail: Seq<u8>, min: u8, max: u8)
    requires
        forall|k: int| 0 <= k < echo.len() ==> echo[k] != ACK_BYTE && echo[k] != NACK_BYTE,
        min - 1 <= 2 + payload.len() <= max - 1,
    ensures
        reply_payload(echo + seq![ACK_BYTE] + reply_frame(payload) + tail, min, max) == Ok::<Seq<u8>, Error>(payload),
{
    let bus = echo + seq![ACK_BYTE] + reply_frame(payload) + tail;
    let k = echo.len() as int + 1;
    assert(bus[k - 1] == ACK_BYTE);
    assert forall|j: int| 0 <= j < k - 1 implies bus[j] != ACK_BYTE && bus[j] != NACK_BYTE by {
        assert(bus[j] == echo[j]);
    }
    lemma_scan_skips(bus, 0, k - 1);
    assert(bus[k] == (2 + payload.len()) as u8);
    assert(bus.subrange(k + 2, k + 2 + payload.len()) =~= payload);
}

/// Big-endian encoding of a 32-bit value.
pub open spec fn be32(v: u32) -> Seq<u8> {
    seq![(v >> 24u32) as u8, (v >> 16u32) as u8, (v >> 8u32) as u8, v as u8]
}

/// The big-endian 32-bit value stored in `s[i..i + 4]`.
pub open spec fn be32_at(s: Seq<u8>, i: int) -> u32 {
    ((s[i] as u32) << 24u32) | ((s[i + 1] as u32) << 16u32) | ((s[i + 2] as u32) << 8u32) | (s[i + 3] as u32)
}

proof fn lemma_be32_bytes(a: u8, b: u8, c: u8, d: u8)
    ensures
        ({
            let v = ((a as u32) << 24u32) | ((b as u32) << 16u32) | ((c as u32) << 8u32) | (d as u32);
            (v >> 24u32) as u8 == a && (v >> 16u32) as u8 == b && (v >> 8u32) as u8 == c && v as u8 == d
        }),
{
    assert(({
        let v = ((a as u32) << 24u32) | ((b as u32) << 16u32) | ((c as u32) << 8u32) | (d as u32);
        (v >> 24u32) as u8 == a && (v >> 16u32) as u8 == b && (v >> 8u32) as u8 == c && v as u8 == d
    })) by (bit_vector);
}

/// Decoding four bytes and encoding the value again gives the same bytes.
pub proof fn lemma_be32_round_trip(s: Seq<u8>, i: int)
    requires
        0 <= i,
        i + 4 <= s.len(),
    ensures
        be32(be32_at(s, i)) == s.subrange(i, i + 4),
{
    lemma_be32_bytes(s[i], s[i + 1], s[i + 2], s[i + 3]);
    assert(be32(be32_at(s, i)) =~= s.subrange(i, i + 4));
}

/// Encoding a value and decoding the four bytes gives the value back.
pub proof fn lemma_be32_decode_encode(v: u32)
    ensures
        be32_at(be32(v), 0) == v,
{
    let a = (v >> 24u32) as u8;
    let b = (v >> 16u32) as u8;
    let c = (v >> 8u32) as u8;
    let d = v as u8;
    assert((((a as u32) << 24u32) | ((b as u32) << 16u32) | ((c as u32) << 8u32) | (d as u32)) == v)
        by (bit_vector)
        requires
            a == (v >> 24u32) as u8,
            b == (v >> 16u32) as u8,
            c == (v >> 8u32) as u8,
            d == v as u8,
    ;
}

pub(crate) fn push_be32(out: &mut Vec<u8>, v: u32)
    ensures
        final(out)@ == old(out)@ + be32(v),
{
    out.push((v >> 24u32) as u8);
    out.push((v >> 16u32) as u8);
    out.push((v >> 8u32) as u8);
    out.push(v as u8);
    assert(final(out)@ =~= old(out)@ + be32(v));
}

pub(crate) fn read_be32(s: &Vec<u8>, i: usize) -> (r: u32)
    requires
        i + 4 <= s@.len(),
    ensures
        r == be32_at(s@, i as int),
{
    let n = s.len();
    assert(i + 3 < n);
    ((s[i] as u32) << 24u32) | ((s[i + 1] as u32) << 16u32) | ((s[i + 2] as u32) << 8u32) | (s[i + 3] as u32)
}

pub(crate) fn append_bytes(out: &mut Vec<u8>, src: &Vec<u8>)
    ensures
        final(out)@ == old(out)@ + src@,
{
    let mut i: usize = 0;
    while i < src.len()
        invariant
            i <= src@.len(),
            out@ == old(out)@ + src@.subrange(0, i as int),
        decreases src@.len() - i,
    {
        out.push(src[i]);
        i = i + 1;
        assert(out@ =~= old(out)@ + src@.subrange(0, i as int));
    }
    assert(src@.subrange(0, src@.len() as int) =~= src@);
}

/// Status the bootloader reports for the last command it ran.
#[derive(Debug, Clone, Copy, PartialEq, Eq, Structural)]
pub enum StatusValue {
    Default,
    Success,
    UnknownCmd,
    InvalidCmd,
    InvalidAddr,
    FlashFail,
}

impl StatusValue {
    pub open spec fn to_byte_spec(self) -> u8 {
        match self {
            StatusValue::Default => 0x00,
            StatusValue::Success => 0x40,
            StatusValue::UnknownCmd => 0x41,
            StatusValue::InvalidCmd => 0x42,
            StatusValue::InvalidAddr => 0x43,
            StatusValue::FlashFail => 0x44,
        }
    }

    pub open spec fn from_byte_spec(b: u8) -> Option<StatusValue> {
        if b == 0x00 {
            Some(StatusValue::Default)
        } else if b == 0x40 {
            Some(StatusValue::Success)
        } else if b == 0x41 {
            Some(StatusValue::UnknownCmd)
        } else if b == 0x42 {
            Some(StatusValue::InvalidCmd)
        } else if b == 0x43 {
            Some(StatusValue::InvalidAddr)
        } else if b == 0x44 {
            Some(StatusValue::FlashFail)
        } else {
            None
        }
    }

    /// The status for a byte on the wire; `None` for a byte outside the enumeration.
    pub fn from_byte(b: u8) -> (r: Option<StatusValue>)
        ensures
            r == StatusValue::from_byte_spec(b),
    {
        if b == 0x00 {
            Some(StatusValue::Default)
        } else if b == 0x40 {
            Some(StatusValue::Success)
        } else if b == 0x41 {
            Some(StatusValue::UnknownCmd)
        } else if b == 0x42 {
            Some(StatusValue::InvalidCmd)
        } else if b == 0x43 {
            Some(StatusValue::InvalidAddr)
        } else if b == 0x44 {
            Some(StatusValue::FlashFail)
        } else {
            None
        }
    }

    /// The byte that stands for this status on the wire.
    pub fn to_byte(self) -> (r: u8)
        ensures
            r == self.to_byte_spec(),
    {
        match self {
            StatusValue::Default => 0x00,
            StatusValue::Success => 0x40,
            StatusValue::UnknownCmd => 0x41,
            StatusValue::InvalidCmd => 0x42,
            StatusValue::InvalidAddr => 0x43,
            StatusValue::FlashFail => 0x44,
        }
    }
}

impl Default for StatusValue {
    fn default() -> (r: StatusValue)
        ensures
            r == StatusValue::Default,
    {
        StatusValue::Default
    }
}

/// Checks that the bootloader answers.
#[derive(Debug, Clone, Copy, PartialEq, Eq, Structural)]
pub struct Ping {}

impl Ping {
    pub const CMD: u8 = 0x20;
    pub const MIN_LEN: u8 = 3;
    pub const MAX_LEN: u8 = 3;
    pub const NULL_BYTES: usize = 36;

    /// The encoded fields, in declaration order.
    pub open spec fn payload(&self) -> Seq<u8> {
        Seq::empty()
    }

    pub fn new() -> Ping {
        Ping {}
    }

    /// The encoded fields, in declaration order.
    pub fn into_payload(&self) -> (r: Vec<u8>)
        ensures
            r@ == self.payload(),
    {
        let mut out: Vec<u8> = Vec::new();
        out
    }

    /// The packet that carries this command, followed by its idle bytes.
    pub fn serialize(self) -> (r: Result<Vec<u8>, Error>)
        ensures
            bytes_result(r) == framed(Ping::CMD, self.payload(), Ping::MIN_LEN, Ping::MAX_LEN, Ping::NULL_BYTES as nat),
    {
        let payload = self.into_payload();
        frame_packet(Ping::CMD, payload, Ping::MIN_LEN, Ping::MAX_LEN, Ping::NULL_BYTES)
    }
}

/// Announces a segment of `size` bytes to be written at `address`.
#[derive(Debug, Clone, Copy, PartialEq, Eq, Structural)]
pub struct Download {
    pub address: u32,
    pub size: u32,
}

impl Download {
    pub const CMD: u8 = 0x21;
    pub const MIN_LEN: u8 = 11;
    pub const MAX_LEN: u8 = 11;
    pub const NULL_BYTES: usize = 24;

    /// The encoded fields, in declaration order.
    pub open spec fn payload(&self) -> Seq<u8> {
        be32(self.address) + be32(self.size)
    }

    pub fn new(address: u32, size: u32) -> (r: Download)
        ensures
            r.address == address,
            r.size == size,
    {
        Download { address, size }
    }

    /// The encoded fields, in declaration order.
    pub fn into_payload(&self) -> (r: Vec<u8>)
        ensures
            r@ == self.payload(),
    {
        let mut out: Vec<u8> = Vec::new();
        push_be32(&mut out, self.address);
        assert(out@ =~= be32(self.address));
        push_be32(&mut out, self.size);
        assert(out@ =~= be32(self.address) + be32(self.size));
        out
    }

    /// The packet that carries this command, followed by its idle bytes.
    pub fn serialize(self) -> (r: Result<Vec<u8>, Error>)
        ensures
            bytes_result(r) == framed(Download::CMD, self.payload(), Download::MIN_LEN, Download::MAX_LEN, Download::NULL_BYTES as nat),
    {
        let payload = self.into_payload();
        frame_packet(Download::CMD, payload, Download::MIN_LEN, Download::MAX_LEN, Download::NULL_BYTES)
    }
}

/// Asks for the status of the last command.
#[derive(Debug, Clone, Copy, PartialEq, Eq, Structural)]
pub struct GetStatus {}

impl GetStatus {
    pub const CMD: u8 = 0x23;
    pub const MIN_LEN: u8 = 3;
    pub const MAX_LEN: u8 = 3;
    pub const NULL_BYTES: usize = 32;

    /// The encoded fields, in declaration order.
    pub open spec fn payload(&self) -> Seq<u8> {
        Seq::empty()
    }

    pub fn new() -> GetStatus {
        GetStatus {}
    }

    /// The encoded fields, in declaration order.
    pub fn into_payload(&self) -> (r: Vec<u8>)
        ensures
            r@ == self.payload(),
    {
        let mut out: Vec<u8> = Vec::new();
        out
    }

    /// The packet that carries this command, followed by its idle bytes.
    pub fn serialize(self) -> (r: Result<Vec<u8>, Error>)
        ensures
            bytes_result(r) == framed(GetStatus::CMD, self.payload(), GetStatus::MIN_LEN, GetStatus::MAX_LEN, GetStatus::NULL_BYTES as nat),
    {
        let payload = self.into_payload();
        frame_packet(GetStatus::CMD, payload, GetStatus::MIN_LEN, GetStatus::MAX_LEN, GetStatus::NULL_BYTES)
    }
}

/// Carries one chunk of the segment announced by `Download`.
#[derive(Debug)]
pub struct SendData {
    pub data: Vec<u8>,
}

impl SendData {
    pub const CMD: u8 = 0x24;
    pub const MIN_LEN: u8 = 4;
    pub const MAX_LEN: u8 = 255;
    pub const NULL_BYTES: usize = 0;

    /// The encoded fields, in declaration order.
    pub open spec fn payload(&self) -> Seq<u8> {
        self.data@
    }

    pub fn new(data: Vec<u8>) -> (r: SendData)
        ensures
            r.data@ == data@,
    {
        SendData { data }
    }

    /// The encoded fields, in declaration order.
    pub fn into_payload(&self) -> (r: Vec<u8>)
        ensures
            r@ == self.payload(),
    {
        let mut out: Vec<u8> = Vec::new();
        append_bytes(&mut out, &self.data);
        assert(out@ =~= self.data@);
        out
    }

    /// The packet that carries this command, followed by its idle bytes.
    pub fn serialize(self) -> (r: Result<Vec<u8>, Error>)
        ensures
            bytes_result(r) == framed(SendData::CMD, self.payload(), SendData::MIN_LEN, SendData::MAX_LEN, SendData::NULL_BYTES as nat),
    {
        let payload = self.into_payload();
        frame_packet(SendData::CMD, payload, SendData::MIN_LEN, SendData::MAX_LEN, SendData::NULL_BYTES)
    }
}

/// Resets the device into its application.
#[derive(Debug, Clone, Copy, PartialEq, Eq, Structural)]
pub struct Reset {}

impl Reset {
    pub const CMD: u8 = 0x25;
    pub const MIN_LEN: u8 = 3;
    pub const MAX_LEN: u8 = 3;
    pub const NULL_BYTES: usize = 32;

    /// The encoded fields, in declaration order.
    pub open spec fn payload(&self) -> Seq<u8> {
        Seq::empty()
    }

    pub fn new() -> Reset {
        Reset {}
    }

    /// The encoded fields, in declaration order.
    pub fn into_payload(&self) -> (r: Vec<u8>)
        ensures
            r@ == self.payload(),
    {
        let mut out: Vec<u8> = Vec::new();
        out
    }

    /// The packet that carries this command, followed by its idle bytes.
    pub fn serialize(self) -> (r: Result<Vec<u8>, Error>)
        ensures
            bytes_result(r) == framed(Reset::CMD, self.payload(), Reset::MIN_LEN, Reset::MAX_LEN, Reset::NULL_BYTES as nat),
    {
        let payload = self.into_payload();
        frame_packet(Reset::CMD, payload, Reset::MIN_LEN, Reset::MAX_LEN, Reset::NULL_BYTES)
    }
}

/// Erases the flash sector holding `address`.
#[derive(Debug, Clone, Copy, PartialEq, Eq, Structural)]
pub struct SectorErase {
    pub address: u32,
}

impl SectorErase {
    pub const CMD: u8 = 0x26;
    pub const MIN_LEN: u8 = 7;
    pub const MAX_LEN: u8 = 7;
    pub const NULL_BYTES: usize = 0;

    /// The encoded fields, in declaration order.
    pub open spec fn payload(&self) -> Seq<u8> {
        be32(self.address)
    }

    pub fn new(address: u32) -> (r: SectorErase)
        ensures
            r.address == address,
    {
        SectorErase { address }
    }

    /// The encoded fields, in declaration order.
    pub fn into_payload(&self) -> (r: Vec<u8>)
        ensures
            r@ == self.payload(),
    {
        let mut out: Vec<u8> = Vec::new();
        push_be32(&mut out, self.address);
        assert(out@ =~= be32(self.address));
        out
    }

    /// The packet that carries this command, followed by its idle bytes.
    pub fn serialize(self) -> (r: Result<Vec<u8>, Error>)
        ensures
            bytes_result(r) == framed(SectorErase::CMD, self.payload(), SectorErase::MIN_LEN, SectorErase::MAX_LEN, SectorErase::NULL_BYTES as nat),
    {
        let payload = self.into_payload();
        frame_packet(SectorErase::CMD, payload, SectorErase::MIN_LEN, SectorErase::MAX_LEN, SectorErase::NULL_BYTES)
    }
}

/// Asks for the CRC32 of `size` bytes at `address`.
#[derive(Debug, Clone, Copy, PartialEq, Eq, Structural)]
pub struct Crc32 {
    pub address: u32,
    pub size: u32,
    pub repeat: u32,
}

impl Crc32 {
    pub const CMD: u8 = 0x27;
    pub const MIN_LEN: u8 = 15;
    pub const MAX_LEN: u8 = 15;
    pub const NULL_BYTES: usize = 0;

    /// The encoded fields, in declaration order.
    pub open spec fn payload(&self) -> Seq<u8> {
        be32(self.address) + be32(self.size) + be32(self.repeat)
    }

    pub fn new(address: u32, size: u32, repeat: u32) -> (r: Crc32)
        ensures
            r.address == address,
            r.size == size,
            r.repeat == repeat,
    {
        Crc32 { address, size, repeat }
    }

    /// The encoded fields, in declaration order.
    pub fn into_payload(&self) -> (r: Vec<u8>)
        ensures
            r@ == self.payload(),
    {
        let mut out: Vec<u8> = Vec::new();
        push_be32(&mut out, self.address);
        assert(out@ =~= be32(self.address));
        push_be32(&mut out, self.size);
        assert(out@ =~= be32(self.address) + be32(self.size));
        push_be32(&mut out, self.repeat);
        assert(out@ =~= be32(self.address) + be32(self.size) + be32(self.repeat));
        out
    }

    /// The packet that carries this command, followed by its idle bytes.
    pub fn serialize(self) -> (r: Result<Vec<u8>, Error>)
        ensures
            bytes_result(r) == framed(Crc32::CMD, self.payload(), Crc32::MIN_LEN, Crc32::MAX_LEN, Crc32::NULL_BYTES as nat),
    {
        let payload = self.into_payload();
        frame_packet(Crc32::CMD, payload, Crc32::MIN_LEN, Crc32::MAX_LEN, Crc32::NULL_BYTES)
    }

    /// Decodes the reply packet that follows the ACK in `from_bus`.
    pub fn from_payload(from_bus: Vec<u8>) -> (r: Result<Crc32, Error>)
        ensures
            match r {
                Ok(x) => reply_payload(from_bus@, Crc32::MIN_LEN, Crc32::MAX_LEN) == Ok::<Seq<u8>, Error>(x.payload()),
                Err(e) => reply_payload(from_bus@, Crc32::MIN_LEN, Crc32::MAX_LEN) == Err::<Seq<u8>, Error>(e),
            },
    {
        let payload = match read_header(&from_bus, Crc32::MIN_LEN, Crc32::MAX_LEN) {
            Ok(p) => p,
            Err(e) => return Err(e),
        };
        let address = read_be32(&payload, 0);
        proof {
            lemma_be32_round_trip(payload@, 0);
        }
        let size = read_be32(&payload, 4);
        proof {
            lemma_be32_round_trip(payload@, 4);
        }
        let repeat = read_be32(&payload, 8);
        proof {
            lemma_be32_round_trip(payload@, 8);
        }
        assert(payload@ =~= be32(address) + be32(size) + be32(repeat));
        Ok(Crc32 { address, size, repeat })
    }
}

/// Asks for the chip identifier.
#[derive(Debug, Clone, Copy, PartialEq, Eq, Structural)]
pub struct GetChipId {}

impl GetChipId {
    pub const CMD: u8 = 0x28;
    pub const MIN_LEN: u8 = 3;
    pub const MAX_LEN: u8 = 3;
    pub const NULL_BYTES: usize = 42;

    /// The encoded fields, in declaration order.
    pub open spec fn payload(&self) -> Seq<u8> {
        Seq::empty()
    }

    pub fn new() -> GetChipId {
        GetChipId {}
    }

    /// The encoded fields, in declaration order.
    pub fn into_payload(&self) -> (r: Vec<u8>)
        ensures
            r@ == self.payload(),
    {
        let mut out: Vec<u8> = Vec::new();
        out
    }

    /// The packet that carries this command, followed by its idle bytes.
    pub fn serialize(self) -> (r: Result<Vec<u8>, Error>)
        ensures
            bytes_result(r) == framed(GetChipId::CMD, self.payload(), GetChipId::MIN_LEN, GetChipId::MAX_LEN, GetChipId::NULL_BYTES as nat),
    {
        let payload = self.into_payload();
        frame_packet(GetChipId::CMD, payload, GetChipId::MIN_LEN, GetChipId::MAX_LEN, GetChipId::NULL_BYTES)
    }
}

/// Reads `size` units of memory at `address`.
#[derive(Debug, Clone, Copy, PartialEq, Eq, Structural)]
pub struct MemoryRead {
    pub address: u32,
    pub access_type: u8,
    pub size: u8,
}

impl MemoryRead {
    pub const CMD: u8 = 0x2A;
    pub const MIN_LEN: u8 = 9;
    pub const MAX_LEN: u8 = 9;
    pub const NULL_BYTES: usize = 272;

    /// The encoded fields, in declaration order.
    pub open spec fn payload(&self) -> Seq<u8> {
        be32(self.address) + seq![self.access_type] + seq![self.size]
    }

    pub fn new(address: u32, access_type: u8, size: u8) -> (r: MemoryRead)
        ensures
            r.address == address,
            r.access_type == access_type,
            r.size == size,
    {
        MemoryRead { address, access_type, size }
    }

    /// The encoded fields, in declaration order.
    pub fn into_payload(&self) -> (r: Vec<u8>)
        ensures
            r@ == self.payload(),
    {
        let mut out: Vec<u8> = Vec::new();
        push_be32(&mut out, self.address);
        assert(out@ =~= be32(self.address));
        out.push(self.access_type);
        assert(out@ =~= be32(self.address) + seq![self.access_type]);
        out.push(self.size);
        assert(out@ =~= be32(self.address) + seq![self.access_type] + seq![self.size]);
        out
    }

    /// The packet that carries this command, followed by its idle bytes.
    pub fn serialize(self) -> (r: Result<Vec<u8>, Error>)
        ensures
            bytes_result(r) == framed(MemoryRead::CMD, self.payload(), MemoryRead::MIN_LEN, MemoryRead::MAX_LEN, MemoryRead::NULL_BYTES as nat),
    {
        let payload = self.into_payload();
        frame_packet(MemoryRead::CMD, payload, MemoryRead::MIN_LEN, MemoryRead::MAX_LEN, MemoryRead::NULL_BYTES)
    }
}

/// Writes `data` to memory at `address`.
#[derive(Debug)]
pub struct MemoryWrite {
    pub address: u32,
    pub size: u32,
    pub data: Vec<u8>,
}

impl MemoryWrite {
    pub const CMD: u8 = 0x2B;
    pub const MIN_LEN: u8 = 9;
    pub const MAX_LEN: u8 = 255;
    pub const NULL_BYTES: usize = 50;

    /// The encoded fields, in declaration order.
    pub open spec fn payload(&self) -> Seq<u8> {
        be32(self.address) + be32(self.size) + self.data@
    }

    pub fn new(address: u32, size: u32, data: Vec<u8>) -> (r: MemoryWrite)
        ensures
            r.address == address,
            r.size == size,
            r.data@ == data@,
    {
        MemoryWrite { address, size, data }
    }

    /// The encoded fields, in declaration order.
    pub fn into_payload(&self) -> (r: Vec<u8>)
        ensures
            r@ == self.payload(),
    {
        let mut out: Vec<u8> = Vec::new();
        push_be32(&mut out, self.address);
        assert(out@ =~= be32(self.address));
        push_be32(&mut out, self.size);
        assert(out@ =~= be32(self.address) + be32(self.size));
        append_bytes(&mut out, &self.data);
        assert(out@ =~= be32(self.address) + be32(self.size) + self.data@);
        out
    }

    /// The packet that carries this command, followed by its idle bytes.
    pub fn serialize(self) -> (r: Result<Vec<u8>, Error>)
        ensures
            bytes_result(r) == framed(MemoryWrite::CMD, self.payload(), MemoryWrite::MIN_LEN, MemoryWrite::MAX_LEN, MemoryWrite::NULL_BYTES as nat),
    {
        let payload = self.into_payload();
        frame_packet(MemoryWrite::CMD, payload, MemoryWrite::MIN_LEN, MemoryWrite::MAX_LEN, MemoryWrite::NULL_BYTES)
    }
}

/// Erases the whole flash bank.
#[derive(Debug, Clone, Copy, PartialEq, Eq, Structural)]
pub struct BankErase {}

impl BankErase {
    pub const CMD: u8 = 0x2C;
    pub const MIN_LEN: u8 = 3;
    pub const MAX_LEN: u8 = 3;
    pub const NULL_BYTES: usize = 0;

    /// The encoded fields, in declaration order.
    pub open spec fn payload(&self) -> Seq<u8> {
        Seq::empty()
    }

    pub fn new() -> BankErase {
        BankErase {}
    }

    /// The encoded fields, in declaration order.
    pub fn into_payload(&self) -> (r: Vec<u8>)
        ensures
            r@ == self.payload(),
    {
        let mut out: Vec<u8> = Vec::new();
        out
    }

    /// The packet that carries this command, followed by its idle bytes.
    pub fn serialize(self) -> (r: Result<Vec<u8>, Error>)
        ensures
            bytes_result(r) == framed(BankErase::CMD, self.payload(), BankErase::MIN_LEN, BankErase::MAX_LEN, BankErase::NULL_BYTES as nat),
    {
        let payload = self.into_payload();
        frame_packet(BankErase::CMD, payload, BankErase::MIN_LEN, BankErase::MAX_LEN, BankErase::NULL_BYTES)
    }
}

/// Reply to `GetChipId`.
#[derive(Debug, Clone, Copy, PartialEq, Eq, Structural)]
pub struct ChipId {
    pub value: u32,
}

impl ChipId {
    pub const MIN_LEN: u8 = 7;
    pub const MAX_LEN: u8 = 7;
    pub const NULL_BYTES: usize = 0;

    /// The encoded fields, in declaration order.
    pub open spec fn payload(&self) -> Seq<u8> {
        be32(self.value)
    }

    pub fn new(value: u32) -> (r: ChipId)
        ensures
            r.value == value,
    {
        ChipId { value }
    }

    /// Decodes the reply packet that follows the ACK in `from_bus`.
    pub fn from_payload(from_bus: Vec<u8>) -> (r: Result<ChipId, Error>)
        ensures
            match r {
                Ok(x) => reply_payload(from_bus@, ChipId::MIN_LEN, ChipId::MAX_LEN) == Ok::<Seq<u8>, Error>(x.payload()),
                Err(e) => reply_payload(from_bus@, ChipId::MIN_LEN, ChipId::MAX_LEN) == Err::<Seq<u8>, Error>(e),
            },
    {
        let payload = match read_header(&from_bus, ChipId::MIN_LEN, ChipId::MAX_LEN) {
            Ok(p) => p,
            Err(e) => return Err(e),
        };
        let value = read_be32(&payload, 0);
        proof {
            lemma_be32_round_trip(payload@, 0);
        }
        assert(payload@ =~= be32(value));
        Ok(ChipId { value })
    }
}

/// Reply to `Crc32`.
#[derive(Debug, Clone, Copy, PartialEq, Eq, Structural)]
pub struct Crc32Response {
    pub value: u32,
}

impl Crc32Response {
    pub const MIN_LEN: u8 = 7;
    pub const MAX_LEN: u8 = 7;
    pub const NULL_BYTES: usize = 0;

    /// The encoded fields, in declaration order.
    pub open spec fn payload(&self) -> Seq<u8> {
        be32(self.value)
    }

    pub fn new(value: u32) -> (r: Crc32Response)
        ensures
            r.value == value,
    {
        Crc32Response { value }
    }

    /// Decodes the reply packet that follows the ACK in `from_bus`.
    pub fn from_payload(from_bus: Vec<u8>) -> (r: Result<Crc32Response, Error>)
        ensures
            match r {
                Ok(x) => reply_payload(from_bus@, Crc32Response::MIN_LEN, Crc32Response::MAX_LEN) == Ok::<Seq<u8>, Error>(x.payload()),
                Err(e) => reply_payload(from_bus@, Crc32Response::MIN_LEN, Crc32Response::MAX_LEN) == Err::<Seq<u8>, Error>(e),
            },
    {
        let payload = match read_header(&from_bus, Crc32Response::MIN_LEN, Crc32Response::MAX_LEN) {
            Ok(p) => p,
            Err(e) => return Err(e),
        };
        let value = read_be32(&payload, 0);
        proof {
            lemma_be32_round_trip(payload@, 0);
        }
        assert(payload@ =~= be32(value));
        Ok(Crc32Response { value })
    }
}

/// Reply to `GetStatus`.
#[derive(Debug, Clone, Copy, PartialEq, Eq, Structural)]
pub struct CommandStatus {
    pub value: StatusValue,
}

impl CommandStatus {
    pub const MIN_LEN: u8 = 4;
    pub const MAX_LEN: u8 = 4;
    pub const NULL_BYTES: usize = 0;

    /// The encoded fields, in declaration order.
    pub open spec fn payload(&self) -> Seq<u8> {
        seq![self.value.to_byte_spec()]
    }

    pub fn new(value: StatusValue) -> (r: CommandStatus)
        ensures
            r.value == value,
    {
        CommandStatus { value }
    }

    /// Decodes the reply packet that follows the ACK in `from_bus`.
    pub fn from_payload(from_bus: Vec<u8>) -> (r: Result<CommandStatus, Error>)
        ensures
            match r {
                Ok(x) => reply_payload(from_bus@, CommandStatus::MIN_LEN, CommandStatus::MAX_LEN) == Ok::<Seq<u8>, Error>(x.payload()),
                Err(e) => reply_payload(from_bus@, CommandStatus::MIN_LEN, CommandStatus::MAX_LEN) == Err::<Seq<u8>, Error>(e)
                    || (e == Error::InvalidStatusCode
                        && reply_payload(from_bus@, CommandStatus::MIN_LEN, CommandStatus::MAX_LEN) is Ok
                        && StatusValue::from_byte_spec(
                            reply_payload(from_bus@, CommandStatus::MIN_LEN, CommandStatus::MAX_LEN)->Ok_0[0],
                        ) is None),
            },
    {
        let payload = match read_header(&from_bus, CommandStatus::MIN_LEN, CommandStatus::MAX_LEN) {
            Ok(p) => p,
            Err(e) => return Err(e),
        };
        let value = match StatusValue::from_byte(payload[0]) {
            Some(v) => v,
            None => return Err(Error::InvalidStatusCode),
        };
        assert(payload@ =~= seq![value.to_byte_spec()]);
        Ok(CommandStatus { value })
    }
}


/// A reply carrying a 32-bit value (chip identifier, CRC32) that the target
/// frames after its ACK parses back to that value.
pub proof fn lemma_value_reply_round_trip(echo: Seq<u8>, v: u32, tail: Seq<u8>)
    requires
        forall|k: int| 0 <= k < echo.len() ==> echo[k] != ACK_BYTE && echo[k] != NACK_BYTE,
    ensures
        reply_payload(echo + seq![ACK_BYTE] + reply_frame(be32(v)) + tail, ChipId::MIN_LEN, ChipId::MAX_LEN)
            == Ok::<Seq<u8>, Error>(be32(v)),
        reply_payload(echo + seq![ACK_BYTE] + reply_frame(be32(v)) + tail, Crc32Response::MIN_LEN, Crc32Response::MAX_LEN)
            == Ok::<Seq<u8>, Error>(be32(v)),
        be32_at(be32(v), 0) == v,
{
    lemma_reply_round_trip(echo, be32(v), tail, ChipId::MIN_LEN, ChipId::MAX_LEN);
    lemma_be32_decode_encode(v);
}

/// A status reply that the target frames after its ACK parses back to that status.
pub proof fn lemma_status_reply_round_trip(echo: Seq<u8>, v: StatusValue, tail: Seq<u8>)
    requires
        forall|k: int| 0 <= k < echo.len() ==> echo[k] != ACK_BYTE && echo[k] != NACK_BYTE,
    ensures
        reply_payload(echo + seq![ACK_BYTE] + reply_frame(seq![v.to_byte_spec()]) + tail, CommandStatus::MIN_LEN, CommandStatus::MAX_LEN)
            == Ok::<Seq<u8>, Error>(seq![v.to_byte_spec()]),
        StatusValue::from_byte_spec(v.to_byte_spec()) == Some(v),
{
    lemma_reply_round_trip(echo, seq![v.to_byte_spec()], tail, CommandStatus::MIN_LEN, CommandStatus::MAX_LEN);
}

} // verus!
