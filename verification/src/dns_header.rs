//! The fixed 12-byte DNS message header: bit-field layout, serialization,
//! deserialization, and the round-trip law.

use vstd::prelude::*;
use crate::utils::spec_u16_be;
use crate::utils::double_u8_to_u16;

verus! {

/// Whether a message is a query or a response (bit 7 of byte 2).
#[derive(Clone, Copy, PartialEq, Eq, Structural, Debug)]
pub enum QR {
    Query,
    Response,
}

/// The 4-bit query kind. Codes outside the closed set fall back to
/// `NotImplemented` instead of failing the parse.
#[derive(Clone, Copy, PartialEq, Eq, Structural, Debug)]
pub enum OpCode {
    StandardQuery,
    InverseQuery,
    ServerStatus,
    NotImplemented,
}

/// The 4-bit response code. Codes outside the closed set fall back to
/// `NotImplemented` instead of failing the parse.
#[derive(Clone, Copy, PartialEq, Eq, Structural, Debug)]
pub enum ResponseCode {
    NoError,
    FormatError,
    ServerFailure,
    NameError,
    NotImplemented,
    Refused,
}

/// The fixed header of a DNS message, one named field per bit-field.
#[derive(Clone, Copy, PartialEq, Eq, Structural, Debug)]
pub struct DnsHeader {
    pub id: u16,
    pub query: QR,
    pub op_code: OpCode,
    pub aa: bool,
    pub tc: bool,
    pub rd: bool,
    pub ra: bool,
    pub z: u8,
    pub response_code: ResponseCode,
    pub questions_count: u16,
    pub answers_count: u16,
    pub authority_count: u16,
    pub additional_count: u16,
}

pub open spec fn qr_bit(q: QR) -> u8 {
    match q {
        QR::Query => 0,
        QR::Response => 1,
    }
}

pub open spec fn spec_qr_from(value: u8) -> QR {
    if value > 0 {
        QR::Response
    } else {
        QR::Query
    }
}

pub open spec fn spec_op_code_code(op: OpCode) -> u8 {
    match op {
        OpCode::StandardQuery => 0,
        OpCode::InverseQuery => 1,
        OpCode::ServerStatus => 2,
        OpCode::NotImplemented => 3,
    }
}

pub open spec fn spec_op_code_from(value: u8) -> OpCode {
    if value == 0 {
        OpCode::StandardQuery
    } else if value == 1 {
        OpCode::InverseQuery
    } else if value == 2 {
        OpCode::ServerStatus
    } else {
        OpCode::NotImplemented
    }
}

pub open spec fn spec_response_code_code(rc: ResponseCode) -> u8 {
    match rc {
        ResponseCode::NoError => 0,
        ResponseCode::FormatError => 1,
        ResponseCode::ServerFailure => 2,
        ResponseCode::NameError => 3,
        ResponseCode::NotImplemented => 4,
        ResponseCode::Refused => 5,
    }
}

pub open spec fn spec_response_code_from(value: u8) -> ResponseCode {
    if value == 0 {
        ResponseCode::NoError
    } else if value == 1 {
        ResponseCode::FormatError
    } else if value == 2 {
        ResponseCode::ServerFailure
    } else if value == 3 {
        ResponseCode::NameError
    } else if value == 4 {
        ResponseCode::NotImplemented
    } else if value == 5 {
        ResponseCode::Refused
    } else {
        ResponseCode::NotImplemented
    }
}

pub open spec fn bool_bit(b: bool) -> u8 {
    if b {
        1
    } else {
        0
    }
}

impl QR {
    pub fn from_code(value: u8) -> (r: QR)
        ensures
            r == spec_qr_from(value),
    {
        if value > 0 {
            QR::Response
        } else {
            QR::Query
        }
    }

    pub fn to_code(self) -> (r: u8)
        ensures
            r == qr_bit(self),
    {
        match self {
            QR::Query => 0,
            QR::Response => 1,
        }
    }
}

impl OpCode {
    pub fn from_code(value: u8) -> (r: OpCode)
        ensures
            r == spec_op_code_from(value),
    {
        match value {
            0 => OpCode::StandardQuery,
            1 => OpCode::InverseQuery,
            2 => OpCode::ServerStatus,
            _ => OpCode::NotImplemented,
        }
    }

    pub fn to_code(self) -> (r: u8)
        ensures
            r == spec_op_code_code(self),
    {
        match self {
            OpCode::StandardQuery => 0,
            OpCode::InverseQuery => 1,
            OpCode::ServerStatus => 2,
            OpCode::NotImplemented => 3,
        }
    }
}

impl ResponseCode {
    pub fn from_code(value: u8) -> (r: ResponseCode)
        ensures
            r == spec_response_code_from(value),
    {
        match value {
            0 => ResponseCode::NoError,
            1 => ResponseCode::FormatError,
            2 => ResponseCode::ServerFailure,
            3 => ResponseCode::NameError,
            4 => ResponseCode::NotImplemented,
            5 => ResponseCode::Refused,
            _ => ResponseCode::NotImplemented,
        }
    }

    pub fn to_code(self) -> (r: u8)
        ensures
            r == spec_response_code_code(self),
    {
        match self {
            ResponseCode::NoError => 0,
            ResponseCode::FormatError => 1,
            ResponseCode::ServerFailure => 2,
            ResponseCode::NameError => 3,
            ResponseCode::NotImplemented => 4,
            ResponseCode::Refused => 5,
        }
    }
}

impl DnsHeader {
    /// Every bit-field fits its declared width; only the 3-bit reserved
    /// field needs a side condition, the rest are exact by type.
    pub open spec fn wf(self) -> bool {
        self.z < 8
    }
}

/// The 12 bytes a header serializes to: id, two flag bytes, four counts,
/// all big-endian. The reserved field is masked to its 3 bits.
pub open spec fn spec_serialize_header(h: DnsHeader) -> Seq<u8> {
    seq![
        (h.id / 256) as u8,
        (h.id % 256) as u8,
        (qr_bit(h.query) * 128 + spec_op_code_code(h.op_code) * 8 + bool_bit(h.aa) * 4
            + bool_bit(h.tc) * 2 + bool_bit(h.rd)) as u8,
        (bool_bit(h.ra) * 128 + (h.z % 8) * 16 + spec_response_code_code(h.response_code)) as u8,
        (h.questions_count / 256) as u8,
        (h.questions_count % 256) as u8,
        (h.answers_count / 256) as u8,
        (h.answers_count % 256) as u8,
        (h.authority_count / 256) as u8,
        (h.authority_count % 256) as u8,
        (h.additional_count / 256) as u8,
        (h.additional_count % 256) as u8,
    ]
}

/// The header read back from the first 12 bytes of a message: inverse bit
/// extraction of `spec_serialize_header`.
pub open spec fn spec_deserialize_header(b: Seq<u8>) -> DnsHeader
    recommends
        b.len() >= 12,
{
    DnsHeader {
        id: spec_u16_be(b[0], b[1]),
        query: spec_qr_from((b[2] / 128) as u8),
        op_code: spec_op_code_from((b[2] / 8 % 16) as u8),
        aa: b[2] / 4 % 2 == 1,
        tc: b[2] / 2 % 2 == 1,
        rd: b[2] % 2 == 1,
        ra: b[3] / 128 == 1,
        z: (b[3] / 16 % 8) as u8,
        response_code: spec_response_code_from((b[3] % 16) as u8),
        questions_count: spec_u16_be(b[4], b[5]),
        answers_count: spec_u16_be(b[6], b[7]),
        authority_count: spec_u16_be(b[8], b[9]),
        additional_count: spec_u16_be(b[10], b[11]),
    }
}

/// Packs a header into its 12-byte wire form.
pub fn serialize_header(msg: &DnsHeader) -> (r: Vec<u8>)
    ensures
        r@ == spec_serialize_header(*msg),
        r@.len() == 12,
{
    let mut bytes: Vec<u8> = Vec::new();
    bytes.push((msg.id / 256) as u8);
    bytes.push((msg.id % 256) as u8);

    let qr: u8 = msg.query.to_code();
    let op: u8 = msg.op_code.to_code();
    let aa: u8 = if msg.aa { 1 } else { 0 };
    let tc: u8 = if msg.tc { 1 } else { 0 };
    let rd: u8 = if msg.rd { 1 } else { 0 };
    bytes.push(qr * 128 + op * 8 + aa * 4 + tc * 2 + rd);

    let ra: u8 = if msg.ra { 1 } else { 0 };
    let rc: u8 = msg.response_code.to_code();
    bytes.push(ra * 128 + (msg.z % 8) * 16 + rc);

    bytes.push((msg.questions_count / 256) as u8);
    bytes.push((msg.questions_count % 256) as u8);
    bytes.push((msg.answers_count / 256) as u8);
    bytes.push((msg.answers_count % 256) as u8);
    bytes.push((msg.authority_count / 256) as u8);
    bytes.push((msg.authority_count % 256) as u8);
    bytes.push((msg.additional_count / 256) as u8);
    bytes.push((msg.additional_count % 256) as u8);

    proof {
        assert(bytes@ =~= spec_serialize_header(*msg));
    }
    bytes
}

/// Unpacks the first 12 bytes of a message into a header. Unknown opcode or
/// response-code values fall back to their `NotImplemented` variants.
pub fn deserialize_header(msg_bytes: &[u8]) -> (r: DnsHeader)
    requires
        msg_bytes@.len() >= 12,
    ensures
        r == spec_deserialize_header(msg_bytes@),
        r.wf(),
{
    let id = double_u8_to_u16(msg_bytes, 0);
    let b2 = msg_bytes[2];
    let b3 = msg_bytes[3];
    let query = QR::from_code(b2 / 128);
    let op_code = OpCode::from_code(b2 / 8 % 16);
    let aa = b2 / 4 % 2 == 1;
    let tc = b2 / 2 % 2 == 1;
    let rd = b2 % 2 == 1;
    let ra = b3 / 128 == 1;
    let z = b3 / 16 % 8;
    let response_code = ResponseCode::from_code(b3 % 16);
    let questions_count = double_u8_to_u16(msg_bytes, 4);
    let answers_count = double_u8_to_u16(msg_bytes, 6);
    let authority_count = double_u8_to_u16(msg_bytes, 8);
    let additional_count = double_u8_to_u16(msg_bytes, 10);

    DnsHeader {
        id,
        query,
        op_code,
        aa,
        tc,
        rd,
        ra,
        z,
        response_code,
        questions_count,
        answers_count,
        authority_count,
        additional_count,
    }
}

/// Header round trip: a well-formed header, serialized and deserialized,
/// comes back unchanged, whatever its field values.
pub proof fn lemma_header_round_trip(h: DnsHeader)
    requires
        h.wf(),
    ensures
        spec_deserialize_header(spec_serialize_header(h)) == h,
{
    let b = spec_serialize_header(h);
    let q = qr_bit(h.query);
    let op = spec_op_code_code(h.op_code);
    let aa = bool_bit(h.aa);
    let tc = bool_bit(h.tc);
    let rd = bool_bit(h.rd);
    let ra = bool_bit(h.ra);
    let rc = spec_response_code_code(h.response_code);
    let b2 = (q * 128 + op * 8 + aa * 4 + tc * 2 + rd) as u8;
    let b3 = (ra * 128 + (h.z % 8) * 16 + rc) as u8;
    assert(b2 / 128 == q && b2 / 8 % 16 == op && b2 / 4 % 2 == aa && b2 / 2 % 2 == tc && b2 % 2
        == rd) by (bit_vector)
        requires
            q <= 1 && op <= 3 && aa <= 1 && tc <= 1 && rd <= 1 && b2 == (q * 128 + op * 8 + aa * 4
                + tc * 2 + rd) as u8,
    ;
    let z = h.z;
    assert(b3 / 128 == ra && b3 / 16 % 8 == z && b3 % 16 == rc) by (bit_vector)
        requires
            ra <= 1 && z < 8 && rc <= 5 && b3 == (ra * 128 + (z % 8) * 16 + rc) as u8,
    ;
    assert(spec_u16_be((h.id / 256) as u8, (h.id % 256) as u8) == h.id);
    assert(spec_u16_be((h.questions_count / 256) as u8, (h.questions_count % 256) as u8)
        == h.questions_count);
    assert(spec_u16_be((h.answers_count / 256) as u8, (h.answers_count % 256) as u8)
        == h.answers_count);
    assert(spec_u16_be((h.authority_count / 256) as u8, (h.authority_count % 256) as u8)
        == h.authority_count);
    assert(spec_u16_be((h.additional_count / 256) as u8, (h.additional_count % 256) as u8)
        == h.additional_count);
}

} // verus!
