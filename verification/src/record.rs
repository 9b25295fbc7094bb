//! One record of the log: its layout in bytes, its checksum, and how it is
//! encoded and decoded.

use vstd::prelude::*;
use vstd::slice::{slice_subrange, slice_to_vec};
use crate::error::LogError;

verus! {

/// Size of one block of the log file.
pub const LOG_BLOCK_SIZE: usize = 32 * 1024;

/// Size of a record's header: checksum (4), length (2), type tag (1).
pub const LOG_RECORD_HEADER_SIZE: usize = 7;

/// Whether a record holds a whole logical entry or a fragment of one.
#[allow(non_camel_case_types)]
#[derive(Clone, Copy, Debug, PartialEq, Eq, Structural)]
pub enum RecordType {
    FULL,
    FIRST,
    MIDDLE,
    LAST,
}

impl RecordType {
    /// The tag byte that stands for this type in a record's header.
    pub open spec fn spec_tag(self) -> u8 {
        match self {
            RecordType::FULL => 1,
            RecordType::FIRST => 2,
            RecordType::MIDDLE => 3,
            RecordType::LAST => 4,
        }
    }

    /// The type that a tag byte stands for, if any.
    pub open spec fn spec_from_tag(tag: u8) -> Option<RecordType> {
        if tag == 1 {
            Some(RecordType::FULL)
        } else if tag == 2 {
            Some(RecordType::FIRST)
        } else if tag == 3 {
            Some(RecordType::MIDDLE)
        } else if tag == 4 {
            Some(RecordType::LAST)
        } else {
            None
        }
    }

    #[verifier::when_used_as_spec(spec_tag)]
    pub fn tag(self) -> (t: u8)
        ensures
            t == self.spec_tag(),
            RecordType::spec_from_tag(t) == Some(self),
    {
        match self {
            RecordType::FULL => 1,
            RecordType::FIRST => 2,
            RecordType::MIDDLE => 3,
            RecordType::LAST => 4,
        }
    }

    #[verifier::when_used_as_spec(spec_from_tag)]
    pub fn from_tag(tag: u8) -> (t: Option<RecordType>)
        ensures
            t == RecordType::spec_from_tag(tag),
    {
        if tag == 1 {
            Some(RecordType::FULL)
        } else if tag == 2 {
            Some(RecordType::FIRST)
        } else if tag == 3 {
            Some(RecordType::MIDDLE)
        } else if tag == 4 {
            Some(RecordType::LAST)
        } else {
            None
        }
    }
}

/// The two bytes of `x`, low byte first.
pub open spec fn le16(x: u16) -> Seq<u8> {
    seq![(x % 256) as u8, (x / 256) as u8]
}

/// The four bytes of `x`, low byte first.
pub open spec fn le32(x: u32) -> Seq<u8> {
    seq![
        (x % 256) as u8,
        (x / 256 % 256) as u8,
        (x / 65536 % 256) as u8,
        (x / 16777216) as u8,
    ]
}

/// The number whose low byte is `b0` and whose high byte is `b1`.
pub open spec fn from_le16(b0: u8, b1: u8) -> u16 {
    (b0 + 256 * b1) as u16
}

/// The number whose four bytes are `b0` to `b3`, low byte first.
pub open spec fn from_le32(b0: u8, b1: u8, b2: u8, b3: u8) -> u32 {
    (b0 + 256 * b1 + 65536 * b2 + 16777216 * b3) as u32
}

/// The CRC-32C (Castagnoli) checksum of `bytes`.
pub uninterp spec fn crc32c(bytes: Seq<u8>) -> u32;

/// The checksum that a record with this payload carries: CRC-32C over the
/// little-endian length field followed by the payload. The type tag is not
/// covered.
pub open spec fn record_checksum(payload: Seq<u8>) -> u32 {
    crc32c(le16(payload.len() as u16) + payload)
}

/// Computes the CRC-32C of `bytes` with `crc::Crc::<u32>` built for
/// `crc::CRC_32_ISCSI`, through `digest`, `update` and `finalize`. The
/// contract only names the result: the digest is a function of the bytes fed
/// to it and of nothing else.
#[verifier::external_body]
fn crc32c_of(bytes: &[u8]) -> (sum: u32)
    ensures
        sum == crc32c(bytes@),
{
    let crc = crc::Crc::<u32>::new(&crc::CRC_32_ISCSI);
    let mut digest = crc.digest();
    digest.update(bytes);
    digest.finalize()
}

/// What a record is: its stored checksum, its type and its payload. The
/// length field is the payload's length.
pub struct RecordView {
    pub checksum: u32,
    pub record_type: RecordType,
    pub payload: Seq<u8>,
}

impl RecordView {
    /// The record with this type and payload whose checksum is the right one.
    pub open spec fn sealed(record_type: RecordType, payload: Seq<u8>) -> RecordView {
        RecordView { checksum: record_checksum(payload), record_type, payload }
    }

    /// The stored checksum is the one computed from the payload.
    pub open spec fn intact(self) -> bool {
        self.checksum == record_checksum(self.payload)
    }

    /// The record as it stands in the log: checksum, length, type tag, payload.
    pub open spec fn frame(self) -> Seq<u8> {
        le32(self.checksum) + le16(self.payload.len() as u16) + seq![self.record_type.spec_tag()]
            + self.payload
    }
}

/// Reads the record that starts `bytes`, without judging its checksum.
pub open spec fn spec_parse(bytes: Seq<u8>) -> Result<RecordView, LogError> {
    if bytes.len() < LOG_RECORD_HEADER_SIZE {
        Err(LogError::TruncatedRecord)
    } else {
        let length = from_le16(bytes[4], bytes[5]);
        if bytes.len() - LOG_RECORD_HEADER_SIZE < length {
            Err(LogError::TruncatedRecord)
        } else {
            match RecordType::spec_from_tag(bytes[6]) {
                None => Err(LogError::UnknownRecordType),
                Some(record_type) => Ok(
                    RecordView {
                        checksum: from_le32(bytes[0], bytes[1], bytes[2], bytes[3]),
                        record_type,
                        payload: bytes.subrange(
                            LOG_RECORD_HEADER_SIZE as int,
                            LOG_RECORD_HEADER_SIZE + length,
                        ),
                    },
                ),
            }
        }
    }
}

/// Reads the record that starts `bytes` and rejects it if its checksum does
/// not match.
pub open spec fn spec_decode(bytes: Seq<u8>) -> Result<RecordView, LogError> {
    match spec_parse(bytes) {
        Err(e) => Err(e),
        Ok(r) => if r.intact() {
            Ok(r)
        } else {
            Err(LogError::ChecksumMismatch)
        },
    }
}

/// One physical frame of the log.
#[derive(Debug)]
pub struct Record {
    checksum: u32,
    length: u16,
    record_type: RecordType,
    data: Vec<u8>,
}

impl View for Record {
    type V = RecordView;

    closed spec fn view(&self) -> RecordView {
        RecordView { checksum: self.checksum, record_type: self.record_type, payload: self.data@ }
    }
}

impl Record {
    #[verifier::type_invariant]
    spec fn length_is_payload_length(self) -> bool {
        self.length == self.data@.len()
    }

    /// A record of the given type around `data`, with its checksum computed.
    pub fn new(data: &[u8], record_type: RecordType) -> (r: Record)
        requires
            data@.len() <= u16::MAX,
        ensures
            r@ == RecordView::sealed(record_type, data@),
    {
        let length = data.len() as u16;
        let mut covered: Vec<u8> = Vec::new();
        push_le16(&mut covered, length);
        covered.extend_from_slice(data);
        assert(covered@ =~= le16(length) + data@);
        Record::with_checksum(crc32c_of(covered.as_slice()), data, record_type)
    }

    /// A record of the given type around `data` that carries `checksum`,
    /// whether or not it is the right one.
    pub fn with_checksum(checksum: u32, data: &[u8], record_type: RecordType) -> (r: Record)
        requires
            data@.len() <= u16::MAX,
        ensures
            r@ == (RecordView { checksum, record_type, payload: data@ }),
    {
        Record { checksum, length: data.len() as u16, record_type, data: slice_to_vec(data) }
    }

    /// Reads the record that starts `bytes`: the header, then as many payload
    /// bytes as the header's length field says. The checksum is taken as
    /// stored; `verify_checksum` judges it.
    pub fn parse(bytes: &[u8]) -> (r: Result<Record, LogError>)
        ensures
            match r {
                Ok(record) => spec_parse(bytes@) == Ok::<RecordView, LogError>(record@),
                Err(e) => spec_parse(bytes@) == Err::<RecordView, LogError>(e),
            },
    {
        if bytes.len() < LOG_RECORD_HEADER_SIZE {
            return Err(LogError::TruncatedRecord);
        }
        let length: u16 = bytes[4] as u16 + 256 * (bytes[5] as u16);
        if bytes.len() - LOG_RECORD_HEADER_SIZE < length as usize {
            return Err(LogError::TruncatedRecord);
        }
        match RecordType::from_tag(bytes[6]) {
            None => Err(LogError::UnknownRecordType),
            Some(record_type) => {
                let checksum: u32 = bytes[0] as u32 + 256 * (bytes[1] as u32) + 65536 * (
                bytes[2] as u32) + 16777216 * (bytes[3] as u32);
                let payload = slice_subrange(
                    bytes,
                    LOG_RECORD_HEADER_SIZE,
                    LOG_RECORD_HEADER_SIZE + length as usize,
                );
                Ok(Record { checksum, length, record_type, data: slice_to_vec(payload) })
            },
        }
    }

    /// Whether the stored checksum is the one that the length field and the
    /// payload give.
    pub fn verify_checksum(&self) -> (ok: bool)
        ensures
            ok == self@.intact(),
    {
        proof {
            use_type_invariant(self);
        }
        let mut covered: Vec<u8> = Vec::new();
        push_le16(&mut covered, self.length);
        covered.extend_from_slice(self.data.as_slice());
        assert(covered@ =~= le16(self.length) + self.data@);
        crc32c_of(covered.as_slice()) == self.checksum
    }

    /// Reads the record that starts `bytes` and checks its checksum.
    pub fn decode(bytes: &[u8]) -> (r: Result<Record, LogError>)
        ensures
            match r {
                Ok(record) => spec_decode(bytes@) == Ok::<RecordView, LogError>(record@),
                Err(e) => spec_decode(bytes@) == Err::<RecordView, LogError>(e),
            },
    {
        match Record::parse(bytes) {
            Err(e) => Err(e),
            Ok(record) => if record.verify_checksum() {
                Ok(record)
            } else {
                Err(LogError::ChecksumMismatch)
            },
        }
    }

    /// The record's frame: checksum, length, type tag, payload.
    pub fn encode(&self) -> (out: Vec<u8>)
        ensures
            out@ == self@.frame(),
    {
        let mut out: Vec<u8> = Vec::new();
        let _ = self.encode_to_file(&mut out);
        out
    }

    /// Appends the record's frame to `f` and returns the frame's size.
    pub fn encode_to_file(&self, f: &mut Vec<u8>) -> (bytes_written: usize)
        ensures
            final(f)@ == old(f)@ + self@.frame(),
            bytes_written == self@.frame().len(),
            bytes_written == LOG_RECORD_HEADER_SIZE + self@.payload.len(),
    {
        proof {
            use_type_invariant(self);
        }
        push_le32(f, self.checksum);
        push_le16(f, self.length);
        f.push(self.record_type.tag());
        f.extend_from_slice(self.data.as_slice());
        LOG_RECORD_HEADER_SIZE + self.data.len()
    }

    /// The checksum that the record carries.
    pub fn checksum(&self) -> (c: u32)
        ensures
            c == self@.checksum,
    {
        self.checksum
    }

    /// The number of payload bytes.
    pub fn length(&self) -> (n: u16)
        ensures
            n == self@.payload.len(),
    {
        proof {
            use_type_invariant(self);
        }
        self.length
    }

    /// Whether the record is a whole entry or which fragment of one.
    pub fn record_type(&self) -> (t: RecordType)
        ensures
            t == self@.record_type,
    {
        self.record_type
    }

    /// The payload bytes.
    pub fn data(&self) -> (d: &[u8])
        ensures
            d@ == self@.payload,
    {
        self.data.as_slice()
    }
}

/// A record's frame reads back as the record, whatever follows it.
pub proof fn lemma_parse_frame(r: RecordView, rest: Seq<u8>)
    requires
        r.payload.len() <= u16::MAX,
    ensures
        spec_parse(r.frame() + rest) == Ok::<RecordView, LogError>(r),
        r.frame().len() == LOG_RECORD_HEADER_SIZE + r.payload.len(),
{
    let bytes = r.frame() + rest;
    let n = r.payload.len() as u16;
    assert(bytes.subrange(LOG_RECORD_HEADER_SIZE as int, LOG_RECORD_HEADER_SIZE + n) =~= r.payload);
}

/// A record that decodes from some bytes decodes the same from those bytes
/// with more behind them.
pub proof fn lemma_decode_ignores_rest(bytes: Seq<u8>, rest: Seq<u8>)
    requires
        spec_parse(bytes) is Ok,
    ensures
        spec_parse(bytes + rest) == spec_parse(bytes),
        spec_decode(bytes + rest) == spec_decode(bytes),
        LOG_RECORD_HEADER_SIZE + spec_parse(bytes)->Ok_0.payload.len() <= bytes.len(),
{
    let longer = bytes + rest;
    let length = from_le16(bytes[4], bytes[5]);
    assert(longer.subrange(LOG_RECORD_HEADER_SIZE as int, LOG_RECORD_HEADER_SIZE + length)
        =~= bytes.subrange(LOG_RECORD_HEADER_SIZE as int, LOG_RECORD_HEADER_SIZE + length));
}

/// Decoding undoes encoding: the frame of a record built from a payload and
/// a type decodes to that payload and that type, and its checksum is
/// accepted.
pub proof fn lemma_decode_encode(payload: Seq<u8>, record_type: RecordType)
    requires
        payload.len() <= u16::MAX,
    ensures
        spec_decode(RecordView::sealed(record_type, payload).frame())
            == Ok::<RecordView, LogError>(RecordView::sealed(record_type, payload)),
        RecordView::sealed(record_type, payload).intact(),
        RecordView::sealed(record_type, payload).payload == payload,
        RecordView::sealed(record_type, payload).record_type == record_type,
{
    let r = RecordView::sealed(record_type, payload);
    lemma_parse_frame(r, Seq::empty());
}

/// Appends the two bytes of `x`, low byte first.
fn push_le16(out: &mut Vec<u8>, x: u16)
    ensures
        final(out)@ == old(out)@ + le16(x),
{
    out.push((x % 256) as u8);
    out.push((x / 256) as u8);
}

/// Appends the four bytes of `x`, low byte first.
fn push_le32(out: &mut Vec<u8>, x: u32)
    ensures
        final(out)@ == old(out)@ + le32(x),
{
    out.push((x % 256) as u8);
    out.push((x / 256 % 256) as u8);
    out.push((x / 65536 % 256) as u8);
    out.push((x / 16777216) as u8);
}

} // verus!
