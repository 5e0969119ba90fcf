//! Resource records: the type and class enumerations, the domain-name codec
//! with label compression, and record serialization/deserialization.

use vstd::prelude::*;
use vstd::utf8::encode_utf8;
use vstd::utf8::decode_utf8;
use vstd::utf8::valid_utf8;
use vstd::utf8::encode_utf8_valid_utf8;
use vstd::utf8::encode_utf8_decode_utf8;
use vstd::utf8::decode_utf8_encode_utf8;
use crate::utils::spec_u16_be;
use crate::utils::spec_i32_be;
use crate::utils::double_u8_to_u16;
use crate::utils::bytes_to_i32;

verus! {

/// A record type. Codes outside the closed set are carried in
/// `Unrecognized` instead of failing the parse.
#[derive(Clone, Copy, PartialEq, Eq, Structural, Debug)]
pub enum DnsType {
    A,
    NS,
    MD,
    MF,
    Cname,
    Soa,
    MB,
    MG,
    MR,
    Null,
    Wks,
    Ptr,
    Hinfo,
    Minfo,
    MX,
    Txt,
    Axfr,
    Mailb,
    Maila,
    AllRecords,
    Unrecognized(u16),
}

/// A record class. Codes outside the closed set are carried in
/// `Unrecognized` instead of failing the parse.
#[derive(Clone, Copy, PartialEq, Eq, Structural, Debug)]
pub enum DnsClass {
    IN,
    CS,
    CH,
    HS,
    AnyClass,
    Unrecognized(u16),
}

/// Decode failures, one variant per malformed layer.
#[derive(Clone, Copy, PartialEq, Eq, Structural, Debug)]
pub enum DnsError {
    MalformedHeader,
    MalformedRecord,
}

pub open spec fn spec_dns_type_code(t: DnsType) -> u16 {
    match t {
        DnsType::A => 1,
        DnsType::NS => 2,
        DnsType::MD => 3,
        DnsType::MF => 4,
        DnsType::Cname => 5,
        DnsType::Soa => 6,
        DnsType::MB => 7,
        DnsType::MG => 8,
        DnsType::MR => 9,
        DnsType::Null => 10,
        DnsType::Wks => 11,
        DnsType::Ptr => 12,
        DnsType::Hinfo => 13,
        DnsType::Minfo => 14,
        DnsType::MX => 15,
        DnsType::Txt => 16,
        DnsType::Axfr => 252,
        DnsType::Mailb => 253,
        DnsType::Maila => 254,
        DnsType::AllRecords => 255,
        DnsType::Unrecognized(c) => c,
    }
}

pub open spec fn spec_dns_type_from(value: u16) -> DnsType {
    match value {
        1u16 => DnsType::A,
        2u16 => DnsType::NS,
        3u16 => DnsType::MD,
        4u16 => DnsType::MF,
        5u16 => DnsType::Cname,
        6u16 => DnsType::Soa,
        7u16 => DnsType::MB,
        8u16 => DnsType::MG,
        9u16 => DnsType::MR,
        10u16 => DnsType::Null,
        11u16 => DnsType::Wks,
        12u16 => DnsType::Ptr,
        13u16 => DnsType::Hinfo,
        14u16 => DnsType::Minfo,
        15u16 => DnsType::MX,
        16u16 => DnsType::Txt,
        252u16 => DnsType::Axfr,
        253u16 => DnsType::Mailb,
        254u16 => DnsType::Maila,
        255u16 => DnsType::AllRecords,
        _ => DnsType::Unrecognized(value),
    }
}

pub open spec fn spec_dns_class_code(c: DnsClass) -> u16 {
    match c {
        DnsClass::IN => 1,
        DnsClass::CS => 2,
        DnsClass::CH => 3,
        DnsClass::HS => 4,
        DnsClass::AnyClass => 255,
        DnsClass::Unrecognized(code) => code,
    }
}

pub open spec fn spec_dns_class_from(value: u16) -> DnsClass {
    match value {
        1u16 => DnsClass::IN,
        2u16 => DnsClass::CS,
        3u16 => DnsClass::CH,
        4u16 => DnsClass::HS,
        255u16 => DnsClass::AnyClass,
        _ => DnsClass::Unrecognized(value),
    }
}

impl DnsType {
    pub fn from_code(value: u16) -> (r: DnsType)
        ensures
            r == spec_dns_type_from(value),
    {
        match value {
            1 => DnsType::A,
            2 => DnsType::NS,
            3 => DnsType::MD,
            4 => DnsType::MF,
            5 => DnsType::Cname,
            6 => DnsType::Soa,
            7 => DnsType::MB,
            8 => DnsType::MG,
            9 => DnsType::MR,
            10 => DnsType::Null,
            11 => DnsType::Wks,
            12 => DnsType::Ptr,
            13 => DnsType::Hinfo,
            14 => DnsType::Minfo,
            15 => DnsType::MX,
            16 => DnsType::Txt,
            252 => DnsType::Axfr,
            253 => DnsType::Mailb,
            254 => DnsType::Maila,
            255 => DnsType::AllRecords,
            _ => DnsType::Unrecognized(value),
        }
    }

    pub fn to_code(self) -> (r: u16)
        ensures
            r == spec_dns_type_code(self),
    {
        match self {
            DnsType::A => 1,
            DnsType::NS => 2,
            DnsType::MD => 3,
            DnsType::MF => 4,
            DnsType::Cname => 5,
            DnsType::Soa => 6,
            DnsType::MB => 7,
            DnsType::MG => 8,
            DnsType::MR => 9,
            DnsType::Null => 10,
            DnsType::Wks => 11,
            DnsType::Ptr => 12,
            DnsType::Hinfo => 13,
            DnsType::Minfo => 14,
            DnsType::MX => 15,
            DnsType::Txt => 16,
            DnsType::Axfr => 252,
            DnsType::Mailb => 253,
            DnsType::Maila => 254,
            DnsType::AllRecords => 255,
            DnsType::Unrecognized(c) => c,
        }
    }
}

impl DnsClass {
    pub fn from_code(value: u16) -> (r: DnsClass)
        ensures
            r == spec_dns_class_from(value),
    {
        match value {
            1 => DnsClass::IN,
            2 => DnsClass::CS,
            3 => DnsClass::CH,
            4 => DnsClass::HS,
            255 => DnsClass::AnyClass,
            _ => DnsClass::Unrecognized(value),
        }
    }

    pub fn to_code(self) -> (r: u16)
        ensures
            r == spec_dns_class_code(self),
    {
        match self {
            DnsClass::IN => 1,
            DnsClass::CS => 2,
            DnsClass::CH => 3,
            DnsClass::HS => 4,
            DnsClass::AnyClass => 255,
            DnsClass::Unrecognized(code) => code,
        }
    }
}

/// One question or answer/authority/additional record. Questions carry
/// `time_to_live == 0` and an empty payload.
#[derive(PartialEq, Eq, Debug)]
pub struct DnsRecord {
    pub name: String,
    pub dns_type: DnsType,
    pub dns_class: DnsClass,
    pub time_to_live: i32,
    pub rd_length: u16,
    pub rd_data: Vec<u8>,
}

/// The mathematical value of a `DnsRecord`: its name as characters and its
/// payload as bytes.
pub struct RecordModel {
    pub name: Seq<char>,
    pub dns_type: DnsType,
    pub dns_class: DnsClass,
    pub time_to_live: i32,
    pub rd_length: u16,
    pub rd_data: Seq<u8>,
}

impl View for DnsRecord {
    type V = RecordModel;

    open spec fn view(&self) -> RecordModel {
        RecordModel {
            name: self.name@,
            dns_type: self.dns_type,
            dns_class: self.dns_class,
            time_to_live: self.time_to_live,
            rd_length: self.rd_length,
            rd_data: self.rd_data@,
        }
    }
}

/// Appends `src[from..to]` to `dst`.
pub(crate) fn push_slice_range(dst: &mut Vec<u8>, src: &[u8], from: usize, to: usize)
    requires
        from <= to <= src@.len(),
    ensures
        final(dst)@ == old(dst)@ + src@.subrange(from as int, to as int),
{
    let mut k = from;
    while k < to
        invariant
            from <= k <= to <= src@.len(),
            dst@ == old(dst)@ + src@.subrange(from as int, k as int),
        decreases to - k,
    {
        dst.push(src[k]);
        proof {
            assert(dst@ =~= old(dst)@ + src@.subrange(from as int, k + 1));
        }
        k = k + 1;
    }
}

impl Clone for DnsRecord {
    fn clone(&self) -> (r: DnsRecord)
        ensures
            r@ == self@,
    {
        let mut data: Vec<u8> = Vec::new();
        push_slice_range(&mut data, self.rd_data.as_slice(), 0, self.rd_data.len());
        proof {
            assert(data@ =~= self.rd_data@);
        }
        DnsRecord {
            name: self.name.clone(),
            dns_type: self.dns_type,
            dns_class: self.dns_class,
            time_to_live: self.time_to_live,
            rd_length: self.rd_length,
            rd_data: data,
        }
    }
}

/// Index of the first '.' byte in `nb`, or `nb.len()` if there is none.
pub open spec fn first_dot(nb: Seq<u8>) -> int
    decreases nb.len(),
{
    if nb.len() == 0 {
        0
    } else if nb[0] == 46 {
        0
    } else {
        1 + first_dot(nb.drop_first())
    }
}

proof fn lemma_first_dot_bounds(nb: Seq<u8>)
    ensures
        0 <= first_dot(nb) <= nb.len(),
        first_dot(nb) < nb.len() ==> nb[first_dot(nb)] == 46,
        forall|j: int| 0 <= j < first_dot(nb) ==> nb[j] != 46,
    decreases nb.len(),
{
    if nb.len() == 0 {
    } else if nb[0] == 46 {
    } else {
        lemma_first_dot_bounds(nb.drop_first());
        assert forall|j: int| 0 <= j < first_dot(nb) implies nb[j] != 46 by {
            if j > 0 {
                assert(nb.drop_first()[j - 1] != 46);
            }
        }
    }
}

/// `first_dot` is pinned by scanning: no dot before `k`, and a dot (or the
/// end of the sequence) at `k`.
proof fn lemma_first_dot_is(nb: Seq<u8>, k: int)
    requires
        0 <= k <= nb.len(),
        forall|j: int| 0 <= j < k ==> nb[j] != 46,
        k < nb.len() ==> nb[k] == 46,
    ensures
        first_dot(nb) == k,
    decreases nb.len(),
{
    if k == 0 {
    } else {
        assert(nb[0] != 46);
        lemma_first_dot_is(nb.drop_first(), k - 1);
    }
}

/// The wire form of dotted-name bytes, without the terminating root byte:
/// each '.'-separated segment is emitted as a length byte followed by the
/// segment itself. A segment longer than 255 has its length truncated, as a
/// length byte can hold no more; senders must validate first.
pub open spec fn spec_encode_name(nb: Seq<u8>) -> Seq<u8>
    decreases nb.len(),
    via spec_encode_name_decreases
{
    let fd = first_dot(nb);
    if fd == nb.len() {
        seq![nb.len() as u8] + nb
    } else {
        seq![fd as u8] + nb.take(fd) + spec_encode_name(nb.skip(fd + 1))
    }
}

#[via_fn]
proof fn spec_encode_name_decreases(nb: Seq<u8>) {
    lemma_first_dot_bounds(nb);
}

/// Appends the encoded labels of `name` and the terminating root byte.
fn push_encoded_name(out: &mut Vec<u8>, name: &String)
    ensures
        final(out)@ == old(out)@ + spec_encode_name(encode_utf8(name@)) + seq![0u8],
{
    let nb: &[u8] = name.as_str().as_bytes();
    let ghost gnb: Seq<u8> = encode_utf8(name@);
    let n = nb.len();
    let mut start: usize = 0;
    let mut i: usize = 0;
    proof {
        assert(gnb.skip(0) =~= gnb);
    }
    while i < n
        invariant
            nb@ == gnb,
            n == gnb.len(),
            start <= i <= n,
            forall|j: int| start <= j < i ==> gnb[j] != 46,
            old(out)@ + spec_encode_name(gnb) == out@ + spec_encode_name(
                gnb.skip(start as int),
            ),
        decreases n - i,
    {
        if nb[i] == 46 {
            let ghost suffix = gnb.skip(start as int);
            proof {
                assert forall|j: int| 0 <= j < i - start implies suffix[j] != 46 by {
                    assert(suffix[j] == gnb[start + j]);
                }
                lemma_first_dot_is(suffix, i - start);
                assert(suffix.take(i - start) =~= gnb.subrange(start as int, i as int));
                assert(suffix.skip(i - start + 1) =~= gnb.skip(i + 1));
            }
            out.push(#[verifier::truncate] ((i - start) as u8));
            push_slice_range(out, nb, start, i);
            proof {
                // the invariant is re-established by unfolding one step of
                // spec_encode_name at `suffix`
                assert(spec_encode_name(suffix) == seq![(i - start) as u8] + gnb.subrange(
                    start as int,
                    i as int,
                ) + spec_encode_name(gnb.skip(i + 1)));
                assert(old(out)@ + spec_encode_name(gnb) == out@ + spec_encode_name(
                    gnb.skip(i + 1),
                ));
            }
            start = i + 1;
        }
        i = i + 1;
    }
    let ghost suffix = gnb.skip(start as int);
    proof {
        assert forall|j: int| 0 <= j < n - start implies suffix[j] != 46 by {
            assert(suffix[j] == gnb[start + j]);
        }
        lemma_first_dot_is(suffix, n - start);
        assert(suffix =~= gnb.subrange(start as int, n as int));
    }
    out.push(#[verifier::truncate] ((n - start) as u8));
    push_slice_range(out, nb, start, n);
    out.push(0);
    proof {
        assert(spec_encode_name(suffix) == seq![(n - start) as u8] + suffix);
        assert(out@ =~= old(out)@ + spec_encode_name(gnb) + seq![0u8]);
    }
}

/// The big-endian bytes of a 16-bit value.
pub open spec fn spec_be16(v: u16) -> Seq<u8> {
    seq![(v / 256) as u8, (v % 256) as u8]
}

/// The four big-endian bytes of a 32-bit time to live, taken at its
/// unsigned bit pattern.
pub open spec fn spec_be32(t: i32) -> Seq<u8> {
    let v = t as u32;
    seq![
        (v / 0x1000000) as u8,
        (v / 0x10000 % 256) as u8,
        (v / 0x100 % 256) as u8,
        (v % 256) as u8,
    ]
}

/// The wire form of one record: encoded name, root byte, type and class
/// codes; then, exactly when the section carries resource data (any
/// section but questions), a 4-byte time to live, a 2-byte payload length
/// and the payload bytes.
pub open spec fn spec_serialize_record(m: RecordModel, has_rdata: bool) -> Seq<u8> {
    spec_encode_name(encode_utf8(m.name)) + seq![0u8] + spec_be16(spec_dns_type_code(m.dns_type))
        + spec_be16(spec_dns_class_code(m.dns_class)) + (if has_rdata {
        spec_be32(m.time_to_live) + spec_be16(m.rd_length) + m.rd_data
    } else {
        Seq::empty()
    })
}

/// Serializes one record to its wire form. As when deserializing, the
/// caller says through `has_rdata` whether the record's section carries
/// time to live and payload (questions: no; the other sections: yes).
pub fn serialize_record(record: &DnsRecord, has_rdata: bool) -> (r: Vec<u8>)
    requires
        record@.sendable(),
    ensures
        r@ == spec_serialize_record(record@, has_rdata),
{
    let mut bytes: Vec<u8> = Vec::new();
    push_encoded_name(&mut bytes, &record.name);

    let t = record.dns_type.to_code();
    bytes.push((t / 256) as u8);
    bytes.push((t % 256) as u8);
    let c = record.dns_class.to_code();
    bytes.push((c / 256) as u8);
    bytes.push((c % 256) as u8);

    if has_rdata {
        let v: u32 = record.time_to_live as u32;
        bytes.push((v / 0x1000000) as u8);
        bytes.push((v / 0x10000 % 256) as u8);
        bytes.push((v / 0x100 % 256) as u8);
        bytes.push((v % 256) as u8);
        bytes.push((record.rd_length / 256) as u8);
        bytes.push((record.rd_length % 256) as u8);
        push_slice_range(&mut bytes, record.rd_data.as_slice(), 0, record.rd_data.len());
        proof {
            assert(record.rd_data@.subrange(0, record.rd_data@.len() as int) =~= record.rd_data@);
        }
    }

    proof {
        assert(bytes@ =~= spec_serialize_record(record@, has_rdata));
    }
    bytes
}

/// Every '.'-separated segment of `nb` is a well-formed DNS label: one to
/// 63 bytes. An empty segment cannot be framed (its length byte would read
/// as the name terminator), and a longer one does not fit a length byte.
pub open spec fn labels_wf(nb: Seq<u8>) -> bool
    decreases nb.len(),
    via labels_wf_decreases
{
    let fd = first_dot(nb);
    if fd == nb.len() {
        1 <= nb.len() <= 63
    } else {
        1 <= fd <= 63 && labels_wf(nb.skip(fd + 1))
    }
}

#[via_fn]
proof fn labels_wf_decreases(nb: Seq<u8>) {
    lemma_first_dot_bounds(nb);
}

/// An `Unrecognized` type code never shadows a known one.
pub open spec fn dns_type_wf(t: DnsType) -> bool {
    t matches DnsType::Unrecognized(c) ==> spec_dns_type_from(c) == DnsType::Unrecognized(c)
}

/// An `Unrecognized` class code never shadows a known one.
pub open spec fn dns_class_wf(c: DnsClass) -> bool {
    c matches DnsClass::Unrecognized(code) ==> spec_dns_class_from(code) == DnsClass::Unrecognized(
        code,
    )
}

impl RecordModel {
    /// The record can be framed exactly: every label of its name is one
    /// to 63 bytes, and the declared payload length is the payload's
    /// actual length.
    pub open spec fn sendable(self) -> bool {
        labels_wf(encode_utf8(self.name)) && self.rd_length == self.rd_data.len()
    }

    /// Shaped as a record of its section: sendable, its codes canonical,
    /// and, for a bare question, no time to live and no payload.
    pub open spec fn wf(self, has_rdata: bool) -> bool {
        &&& self.sendable()
        &&& dns_type_wf(self.dns_type)
        &&& dns_class_wf(self.dns_class)
        &&& !has_rdata ==> (self.time_to_live == 0 && self.rd_length == 0 && self.rd_data.len()
            == 0)
    }
}

/// Checks, before a record is sent, that it can be framed exactly: every
/// label one to 63 bytes, and the declared payload length matching the
/// payload.
#[verifier::loop_isolation(false)]
pub fn record_sendable(record: &DnsRecord) -> (b: bool)
    ensures
        b == record@.sendable(),
{
    if record.rd_length as usize != record.rd_data.len() {
        return false;
    }
    let nb: &[u8] = record.name.as_str().as_bytes();
    let ghost gnb: Seq<u8> = encode_utf8(record.name@);
    let n = nb.len();
    let mut start: usize = 0;
    let mut i: usize = 0;
    proof {
        assert(gnb.skip(0) =~= gnb);
    }
    while i < n
        invariant
            start <= i <= n,
            forall|j: int| start <= j < i ==> gnb[j] != 46,
            labels_wf(gnb) <==> labels_wf(gnb.skip(start as int)),
        decreases n - i,
    {
        if nb[i] == 46 {
            let ghost suffix = gnb.skip(start as int);
            proof {
                assert forall|j: int| 0 <= j < i - start implies suffix[j] != 46 by {
                    assert(suffix[j] == gnb[start + j]);
                }
                lemma_first_dot_is(suffix, i - start);
                assert(suffix.skip(i - start + 1) =~= gnb.skip(i + 1));
            }
            if i - start > 63 || i == start {
                return false;
            }
            start = i + 1;
        }
        i = i + 1;
    }
    let ghost suffix = gnb.skip(start as int);
    proof {
        assert forall|j: int| 0 <= j < n - start implies suffix[j] != 46 by {
            assert(suffix[j] == gnb[start + j]);
        }
        lemma_first_dot_is(suffix, n - start);
    }
    1 <= n - start && n - start <= 63
}

/// A label joined in front of already-joined labels.
pub open spec fn join_label(label: Seq<u8>, rest: Seq<u8>) -> Seq<u8> {
    if rest.len() == 0 {
        label
    } else {
        label + seq![46u8] + rest
    }
}

/// Already-joined labels joined in front of labels still to come.
pub open spec fn spec_join_acc(acc: Seq<u8>, rest: Seq<u8>) -> Seq<u8> {
    if acc.len() == 0 {
        rest
    } else if rest.len() == 0 {
        acc
    } else {
        acc + seq![46u8] + rest
    }
}

proof fn lemma_join_shift(acc: Seq<u8>, label: Seq<u8>, rest: Seq<u8>)
    requires
        label.len() > 0,
    ensures
        spec_join_acc(acc, join_label(label, rest)) == spec_join_acc(
            spec_join_acc(acc, label),
            rest,
        ),
{
    if acc.len() == 0 {
    } else if rest.len() == 0 {
    } else {
        assert(acc + seq![46u8] + (label + seq![46u8] + rest) =~= (acc + seq![46u8] + label)
            + seq![46u8] + rest);
    }
}

/// Decodes the labels whose first length byte sits at `pos`, following
/// compression pointers, into dotted-name bytes; also yields the offset
/// just after the original (not the followed) encoding. Malformed input
/// gives `None`: a truncated buffer, a length byte with only one high bit
/// set, a pointer that does not point strictly backwards, a '.' byte
/// inside a label (the textual name form cannot carry it), or a pointer
/// chain longer than the fuel allows.
pub open spec fn spec_decode_name(b: Seq<u8>, pos: int, fuel: nat) -> Option<(Seq<u8>, int)>
    decreases fuel,
{
    if fuel == 0 {
        None
    } else if !(0 <= pos < b.len()) {
        None
    } else {
        let len = b[pos] as int;
        if len == 0 {
            Some((Seq::empty(), pos + 1))
        } else if len >= 192 {
            if pos + 1 >= b.len() {
                None
            } else {
                let target = (len - 192) * 256 + b[pos + 1];
                if target >= pos {
                    None
                } else {
                    match spec_decode_name(b, target, (fuel - 1) as nat) {
                        None => None,
                        Some(pr) => Some((pr.0, pos + 2)),
                    }
                }
            }
        } else if len >= 64 {
            None
        } else if pos + 1 + len > b.len() {
            None
        } else if b.subrange(pos + 1, pos + 1 + len).contains(46u8) {
            None
        } else {
            match spec_decode_name(b, pos + 1 + len, (fuel - 1) as nat) {
                None => None,
                Some(pr) => Some((join_label(b.subrange(pos + 1, pos + 1 + len), pr.0), pr.1)),
            }
        }
    }
}

/// A successful decode is insensitive to extra fuel.
proof fn lemma_decode_name_fuel_mono(b: Seq<u8>, pos: int, f1: nat, f2: nat)
    requires
        f1 <= f2,
        spec_decode_name(b, pos, f1) is Some,
    ensures
        spec_decode_name(b, pos, f2) == spec_decode_name(b, pos, f1),
    decreases f1,
{
    let len = b[pos] as int;
    if len == 0 {
    } else if len >= 192 {
        let target = (len - 192) * 256 + b[pos + 1];
        lemma_decode_name_fuel_mono(b, target, (f1 - 1) as nat, (f2 - 1) as nat);
    } else {
        lemma_decode_name_fuel_mono(b, pos + 1 + len, (f1 - 1) as nat, (f2 - 1) as nat);
    }
}

/// Joining one well-sized, dot-free label in front of well-formed label
/// bytes keeps them well-formed.
proof fn lemma_join_label_wf(label: Seq<u8>, rest: Seq<u8>)
    requires
        1 <= label.len() <= 63,
        !label.contains(46u8),
        rest.len() == 0 || labels_wf(rest),
    ensures
        labels_wf(join_label(label, rest)),
{
    if rest.len() == 0 {
        assert forall|j: int| 0 <= j < label.len() implies label[j] != 46 by {
            if label[j] == 46 {
                assert(label.contains(46u8));
            }
        }
        lemma_first_dot_is(label, label.len() as int);
    } else {
        let joined = label + seq![46u8] + rest;
        assert forall|j: int| 0 <= j < label.len() implies joined[j] != 46 by {
            assert(joined[j] == label[j]);
            if label[j] == 46 {
                assert(label.contains(46u8));
            }
        }
        assert(joined[label.len() as int] == 46);
        lemma_first_dot_is(joined, label.len() as int);
        assert(joined.skip(label.len() as int + 1) =~= rest);
    }
}

/// A successful name decode ends inside the buffer.
proof fn lemma_decode_name_end(b: Seq<u8>, pos: int, fuel: nat)
    requires
        spec_decode_name(b, pos, fuel) is Some,
    ensures
        0 <= spec_decode_name(b, pos, fuel).unwrap().1 <= b.len(),
    decreases fuel,
{
    let len = b[pos] as int;
    if len == 0 {
    } else if len >= 192 {
    } else {
        lemma_decode_name_end(b, pos + 1 + len, (fuel - 1) as nat);
    }
}

/// A decoded name is the root (empty) or well-formed label bytes.
proof fn lemma_decode_name_labels(b: Seq<u8>, pos: int, fuel: nat)
    requires
        spec_decode_name(b, pos, fuel) is Some,
    ensures
        ({
            let nb = spec_decode_name(b, pos, fuel).unwrap().0;
            nb.len() == 0 || labels_wf(nb)
        }),
    decreases fuel,
{
    let len = b[pos] as int;
    if len == 0 {
    } else if len >= 192 {
        let target = (len - 192) * 256 + b[pos + 1];
        lemma_decode_name_labels(b, target, (fuel - 1) as nat);
    } else {
        let label = b.subrange(pos + 1, pos + 1 + len);
        lemma_decode_name_labels(b, pos + 1 + len, (fuel - 1) as nat);
        let rest = spec_decode_name(b, pos + 1 + len, (fuel - 1) as nat).unwrap().0;
        lemma_join_label_wf(label, rest);
    }
}

/// A record read back from the wire is well-formed for its section: its
/// labels fit, its codes are canonical, its declared payload length is
/// its payload's, and a question carries no time to live and no payload.
pub proof fn lemma_decode_record_wf(b: Seq<u8>, pos: int, has_rdata: bool)
    requires
        spec_decode_record(b, pos, has_rdata) is Some,
    ensures
        spec_decode_record(b, pos, has_rdata).unwrap().0.wf(has_rdata),
{
    let npr = spec_decode_name(b, pos, b.len() as nat).unwrap();
    let nb = npr.0;
    lemma_decode_name_end(b, pos, b.len() as nat);
    lemma_decode_name_labels(b, pos, b.len() as nat);
    decode_utf8_encode_utf8(nb);
    let m = spec_decode_record(b, pos, has_rdata).unwrap().0;
    assert(encode_utf8(m.name) == nb);
    assert(labels_wf(encode_utf8(m.name)));
    lemma_from_code_type_wf(spec_u16_be(b[npr.1], b[npr.1 + 1]));
    lemma_from_code_class_wf(spec_u16_be(b[npr.1 + 2], b[npr.1 + 3]));
    assert(m.rd_length == m.rd_data.len());
    assert(m.sendable());
}

proof fn lemma_from_code_type_wf(v: u16)
    ensures
        dns_type_wf(spec_dns_type_from(v)),
{
}

proof fn lemma_from_code_class_wf(v: u16)
    ensures
        dns_class_wf(spec_dns_class_from(v)),
{
}

/// Compression round trip: where the bytes at `p` are nothing but a
/// pointer, the name decoded at `p` equals the name decoded directly at
/// the pointer's target, and the cursor resumes right after the pointer.
pub proof fn lemma_compression_round_trip(b: Seq<u8>, p: int, name: Seq<u8>, end: int)
    requires
        0 <= p,
        p + 1 < b.len(),
        b[p] >= 192,
        spec_decode_name(b, p, b.len() as nat) == Some((name, end)),
    ensures
        end == p + 2,
        exists|e2: int|
            spec_decode_name(b, (b[p] - 192) * 256 + b[p + 1], b.len() as nat) == Some(
                (name, e2),
            ),
{
    let fuel = b.len() as nat;
    let target = (b[p] - 192) * 256 + b[p + 1];
    match spec_decode_name(b, target, (fuel - 1) as nat) {
        None => {
            assert(false);
        },
        Some(pr) => {
            lemma_decode_name_fuel_mono(b, target, (fuel - 1) as nat, fuel);
            assert(spec_decode_name(b, target, fuel) == Some((name, pr.1)));
        },
    }
}

/// Encoding a name takes at least one length byte more than the name.
proof fn lemma_encode_name_len(nb: Seq<u8>)
    ensures
        spec_encode_name(nb).len() >= nb.len() + 1,
    decreases nb.len(),
{
    lemma_first_dot_bounds(nb);
    let fd = first_dot(nb);
    if fd == nb.len() {
    } else {
        lemma_encode_name_len(nb.skip(fd + 1));
    }
}

pub(crate) proof fn lemma_subrange_index(b: Seq<u8>, lo: int, hi: int, s: Seq<u8>, k: int)
    requires
        0 <= lo <= hi <= b.len(),
        b.subrange(lo, hi) == s,
        0 <= k < s.len(),
    ensures
        b[lo + k] == s[k],
{
    assert(b.subrange(lo, hi)[k] == b[lo + k]);
}

/// Decoding reads back exactly what encoding wrote: where well-formed
/// dotted-name bytes stand encoded at `p`, terminator included, the name
/// decoder returns them and stops right after the terminator.
proof fn lemma_name_round_trip(b: Seq<u8>, p: int, nb: Seq<u8>, fuel: nat)
    requires
        labels_wf(nb),
        0 <= p,
        p + spec_encode_name(nb).len() + 1 <= b.len(),
        b.subrange(p, p + spec_encode_name(nb).len() + 1) == spec_encode_name(nb) + seq![0u8],
        fuel >= nb.len() + 1,
    ensures
        spec_decode_name(b, p, fuel) == Some((nb, p + spec_encode_name(nb).len() + 1)),
    decreases nb.len(),
{
    lemma_first_dot_bounds(nb);
    let fd = first_dot(nb);
    let enc = spec_encode_name(nb);
    let seg = b.subrange(p, p + enc.len() + 1);
    assert(b[p] == seg[0]);
    if fd == nb.len() {
        // a single label, then the terminator
        assert(enc == seq![nb.len() as u8] + nb);
        assert(b[p] == nb.len() as u8);
        assert forall|j: int| 0 <= j < nb.len() implies b[p + 1 + j] == nb[j] by {
            assert(b[p + 1 + j] == seg[1 + j]);
            assert(enc[1 + j] == nb[j]);
        }
        let label = b.subrange(p + 1, p + 1 + nb.len() as int);
        assert(label =~= nb);
        assert(!label.contains(46u8)) by {
            if label.contains(46u8) {
                let k = choose|k: int| 0 <= k < label.len() && label[k] == 46u8;
                assert(nb[k] != 46);
            }
        }
        assert(b[p + 1 + nb.len()] == seg[enc.len() as int]);
        assert((enc + seq![0u8])[enc.len() as int] == 0);
        assert(spec_decode_name(b, p + 1 + nb.len(), (fuel - 1) as nat) == Some(
            (Seq::<u8>::empty(), p + nb.len() + 2),
        ));
        assert(join_label(nb, Seq::<u8>::empty()) == nb);
    } else {
        let rest = nb.skip(fd + 1);
        let enc_rest = spec_encode_name(rest);
        assert(enc == seq![fd as u8] + nb.take(fd) + enc_rest);
        assert(b[p] == fd as u8);
        assert forall|j: int| 0 <= j < fd implies b[p + 1 + j] == nb[j] by {
            assert(b[p + 1 + j] == seg[1 + j]);
            assert(enc[1 + j] == nb.take(fd)[j]);
        }
        let label = b.subrange(p + 1, p + 1 + fd);
        assert(label =~= nb.take(fd));
        assert(!label.contains(46u8)) by {
            if label.contains(46u8) {
                let k = choose|k: int| 0 <= k < label.len() && label[k] == 46u8;
                assert(nb[k] != 46);
            }
        }
        assert forall|j: int| 0 <= j < enc_rest.len() + 1 implies b[p + 1 + fd + j] == (enc_rest
            + seq![0u8])[j] by {
            assert(b[p + 1 + fd + j] == seg[1 + fd + j]);
            if j < enc_rest.len() {
                assert((enc + seq![0u8])[1 + fd + j] == enc[1 + fd + j]);
                assert(enc[1 + fd + j] == enc_rest[j]);
            } else {
                assert((enc + seq![0u8])[enc.len() as int] == 0);
            }
        }
        assert(b.subrange(p + 1 + fd, p + 1 + fd + enc_rest.len() + 1) =~= enc_rest + seq![0u8]);
        lemma_name_round_trip(b, p + 1 + fd, rest, (fuel - 1) as nat);
        assert(labels_wf(rest));
        lemma_first_dot_bounds(rest);
        assert(rest.len() >= 1);
        assert(nb[fd] == 46);
        assert(join_label(nb.take(fd), rest) =~= nb);
        assert(p + 1 + fd + enc_rest.len() + 1 == p + enc.len() + 1);
    }
}

/// Record round trip: a record well-formed for its section, written at
/// `p` of a buffer, is read back unchanged, with the cursor right after
/// its wire form. The section context must match on both sides.
pub proof fn lemma_record_round_trip(b: Seq<u8>, p: int, m: RecordModel, has_rdata: bool)
    requires
        m.wf(has_rdata),
        0 <= p,
        p + spec_serialize_record(m, has_rdata).len() <= b.len(),
        b.subrange(p, p + spec_serialize_record(m, has_rdata).len()) == spec_serialize_record(
            m,
            has_rdata,
        ),
    ensures
        spec_decode_record(b, p, has_rdata) == Some(
            (m, p + spec_serialize_record(m, has_rdata).len()),
        ),
{
    let nb = encode_utf8(m.name);
    encode_utf8_valid_utf8(m.name);
    encode_utf8_decode_utf8(m.name);
    let enc = spec_encode_name(nb);
    let ser = spec_serialize_record(m, has_rdata);
    let sg = b.subrange(p, p + ser.len());
    assert forall|j: int| 0 <= j < enc.len() + 1 implies b[p + j] == (enc + seq![0u8])[j] by {
        assert(b[p + j] == sg[j]);
        assert(ser[j] == (enc + seq![0u8])[j]);
    }
    assert(b.subrange(p, p + enc.len() + 1) =~= enc + seq![0u8]);
    lemma_encode_name_len(nb);
    lemma_name_round_trip(b, p, nb, b.len() as nat);
    let q = p + enc.len() + 1;
    assert(spec_decode_name(b, p, b.len() as nat) == Some((nb, q)));
    assert(nb.len() > 0);

    let tc = spec_dns_type_code(m.dns_type);
    let cc = spec_dns_class_code(m.dns_class);
    lemma_subrange_index(b, p, p + ser.len(), ser, enc.len() as int + 1);
    lemma_subrange_index(b, p, p + ser.len(), ser, enc.len() as int + 2);
    lemma_subrange_index(b, p, p + ser.len(), ser, enc.len() as int + 3);
    lemma_subrange_index(b, p, p + ser.len(), ser, enc.len() as int + 4);
    assert(b[q] == (tc / 256) as u8 && b[q + 1] == (tc % 256) as u8);
    assert(b[q + 2] == (cc / 256) as u8 && b[q + 3] == (cc % 256) as u8);
    assert(spec_u16_be((tc / 256) as u8, (tc % 256) as u8) == tc);
    assert(spec_u16_be((cc / 256) as u8, (cc % 256) as u8) == cc);
    lemma_type_round(m.dns_type);
    lemma_class_round(m.dns_class);

    if !has_rdata {
        let got = spec_decode_record(b, p, has_rdata).unwrap().0;
        assert(got.rd_data =~= m.rd_data);
        assert(got == m);
    } else {
        let v = m.time_to_live as u32;
        lemma_subrange_index(b, p, p + ser.len(), ser, enc.len() as int + 5);
        lemma_subrange_index(b, p, p + ser.len(), ser, enc.len() as int + 6);
        lemma_subrange_index(b, p, p + ser.len(), ser, enc.len() as int + 7);
        lemma_subrange_index(b, p, p + ser.len(), ser, enc.len() as int + 8);
        lemma_subrange_index(b, p, p + ser.len(), ser, enc.len() as int + 9);
        lemma_subrange_index(b, p, p + ser.len(), ser, enc.len() as int + 10);
        assert(b[q + 4] == (v / 0x1000000) as u8 && b[q + 5] == (v / 0x10000 % 256) as u8 && b[q
            + 6] == (v / 0x100 % 256) as u8 && b[q + 7] == (v % 256) as u8);
        lemma_be32_round(m.time_to_live);
        assert(b[q + 8] == (m.rd_length / 256) as u8 && b[q + 9] == (m.rd_length % 256) as u8);
        assert(spec_u16_be((m.rd_length / 256) as u8, (m.rd_length % 256) as u8) == m.rd_length);
        assert forall|j: int| 0 <= j < m.rd_data.len() implies b[q + 10 + j] == m.rd_data[j] by {
            lemma_subrange_index(b, p, p + ser.len(), ser, enc.len() as int + 11 + j);
            assert(ser[enc.len() + 11 + j] == m.rd_data[j]);
        }
        assert(b.subrange(q + 10, q + 10 + m.rd_length) =~= m.rd_data);
        let got = spec_decode_record(b, p, has_rdata).unwrap().0;
        assert(got == m);
        assert(p + ser.len() == q + 10 + m.rd_length);
    }
}

/// The four big-endian bytes of a time to live read back as the same
/// 32-bit value, negative values (an unsigned TTL's high bit) included.
proof fn lemma_be32_round(t: i32)
    ensures
        spec_i32_be(
            (t as u32 / 0x1000000) as u8,
            (t as u32 / 0x10000 % 256) as u8,
            (t as u32 / 0x100 % 256) as u8,
            (t as u32 % 256) as u8,
        ) == t,
{
    let v = t as u32;
    let b0 = (v / 0x1000000) as u8;
    let b1 = (v / 0x10000 % 256) as u8;
    let b2 = (v / 0x100 % 256) as u8;
    let b3 = (v % 256) as u8;
    assert(((b0 * 0x1000000 + b1 * 0x10000 + b2 * 0x100 + b3) as u32) as i32 == t) by (bit_vector)
        requires
            v == t as u32 && b0 == (v / 0x1000000) as u8 && b1 == (v / 0x10000 % 256) as u8 && b2
                == (v / 0x100 % 256) as u8 && b3 == (v % 256) as u8,
    ;
}

proof fn lemma_type_round(t: DnsType)
    requires
        dns_type_wf(t),
    ensures
        spec_dns_type_from(spec_dns_type_code(t)) == t,
{
}

proof fn lemma_class_round(c: DnsClass)
    requires
        dns_class_wf(c),
    ensures
        spec_dns_class_from(spec_dns_class_code(c)) == c,
{
}

/// Relies on String::from_utf8: it succeeds exactly on valid UTF-8 and
/// then returns the string of exactly those bytes, whose characters are
/// their UTF-8 decoding; on anything else it reports the error consumed
/// here into `None`.
#[verifier::external_body]
fn utf8_bytes_to_string(v: Vec<u8>) -> (r: Option<String>)
    ensures
        match r {
            Some(name) => valid_utf8(v@) && name@ == decode_utf8(v@),
            None => !valid_utf8(v@),
        },
{
    match String::from_utf8(v) {
        Ok(name) => Some(name),
        Err(_) => None,
    }
}

/// Decodes the domain name whose first length byte sits at `start`,
/// resolving compression pointers, and returns its dotted bytes together
/// with the offset just after the original encoding.
#[verifier::loop_isolation(false)]
fn deserialize_name(bytes: &[u8], start: usize) -> (r: Result<(Vec<u8>, usize), DnsError>)
    ensures
        match r {
            Ok(pr) => {
                &&& spec_decode_name(bytes@, start as int, bytes@.len() as nat) == Some(
                    (pr.0@, pr.1 as int),
                )
                &&& pr.1 <= bytes@.len()
            },
            Err(e) => {
                &&& spec_decode_name(bytes@, start as int, bytes@.len() as nat) is None
                &&& e == DnsError::MalformedRecord
            },
        },
{
    let ghost gb = bytes@;
    let blen = bytes.len();
    let mut p = start;
    let mut fuel: usize = blen;
    let mut out: Vec<u8> = Vec::new();
    let mut end: usize = 0;
    let mut have_end = false;

    loop
        invariant
            gb == bytes@,
            blen == gb.len(),
            fuel <= blen,
            have_end ==> end <= blen,
            match spec_decode_name(gb, p as int, fuel as nat) {
                None => spec_decode_name(gb, start as int, blen as nat) is None,
                Some(pr) => spec_decode_name(gb, start as int, blen as nat) == Some(
                    (
                        spec_join_acc(out@, pr.0),
                        if have_end {
                            end as int
                        } else {
                            pr.1
                        },
                    ),
                ),
            },
        decreases fuel,
    {
        if fuel == 0 {
            return Err(DnsError::MalformedRecord);
        }
        if p >= blen {
            return Err(DnsError::MalformedRecord);
        }
        let len = bytes[p];
        if len == 0 {
            let fin = if have_end {
                end
            } else {
                p + 1
            };
            return Ok((out, fin));
        } else if len >= 192 {
            if p + 1 >= blen {
                return Err(DnsError::MalformedRecord);
            }
            let target = (len as usize - 192) * 256 + bytes[p + 1] as usize;
            if target >= p {
                return Err(DnsError::MalformedRecord);
            }
            if !have_end {
                end = p + 2;
                have_end = true;
            }
            p = target;
            fuel = fuel - 1;
        } else if len >= 64 {
            return Err(DnsError::MalformedRecord);
        } else {
            let lab_len = len as usize;
            if lab_len > blen - (p + 1) {
                return Err(DnsError::MalformedRecord);
            }
            let ghost out_before = out@;
            let ghost label = gb.subrange(p + 1, p + 1 + lab_len);
            if out.len() > 0 {
                out.push(46);
            }
            let ghost out_mid = out@;
            let mut k = p + 1;
            while k < p + 1 + lab_len
                invariant
                    gb == bytes@,
                    blen == gb.len(),
                    p + 1 <= k <= p + 1 + lab_len <= blen,
                    label == gb.subrange(p + 1, p + 1 + lab_len),
                    out@ == out_mid + gb.subrange(p + 1, k as int),
                    forall|j: int| p + 1 <= j < k ==> gb[j] != 46,
                    spec_decode_name(gb, p as int, fuel as nat) is None ==> spec_decode_name(
                        gb,
                        start as int,
                        blen as nat,
                    ) is None,
                decreases p + 1 + lab_len - k,
            {
                if bytes[k] == 46 {
                    proof {
                        assert(label[k - (p + 1)] == gb[k as int]);
                        assert(label.contains(46u8));
                        assert(spec_decode_name(gb, p as int, fuel as nat) is None);
                    }
                    return Err(DnsError::MalformedRecord);
                }
                out.push(bytes[k]);
                proof {
                    assert(out@ =~= out_mid + gb.subrange(p + 1, k + 1));
                }
                k = k + 1;
            }
            proof {
                assert(!label.contains(46u8)) by {
                    assert(forall|j: int|
                        0 <= j < label.len() ==> label[j] == gb[p + 1 + j] && gb[p + 1 + j] != 46);
                }
                assert(out@ == out_mid + label);
                assert(out@ =~= spec_join_acc(out_before, label));
                match spec_decode_name(gb, p + 1 + lab_len, (fuel - 1) as nat) {
                    None => {},
                    Some(pr) => {
                        lemma_join_shift(out_before, label, pr.0);
                    },
                }
            }
            p = p + 1 + lab_len;
            fuel = fuel - 1;
        }
    }
}

/// The mathematical record decoded at `pos` (a length byte of its name):
/// name, type and class; with `has_rdata`, also time to live, payload
/// length and payload. `None` on any truncation, a malformed name, an
/// empty name (the textual form cannot carry it), or name bytes that are
/// not valid UTF-8.
pub open spec fn spec_decode_record(b: Seq<u8>, pos: int, has_rdata: bool) -> Option<
    (RecordModel, int),
> {
    match spec_decode_name(b, pos, b.len() as nat) {
        None => None,
        Some(npr) => {
            let nb = npr.0;
            let p = npr.1;
            if nb.len() == 0 || !valid_utf8(nb) {
                None
            } else if p + 4 > b.len() {
                None
            } else {
                let t = spec_dns_type_from(spec_u16_be(b[p], b[p + 1]));
                let c = spec_dns_class_from(spec_u16_be(b[p + 2], b[p + 3]));
                if !has_rdata {
                    Some(
                        (
                            RecordModel {
                                name: decode_utf8(nb),
                                dns_type: t,
                                dns_class: c,
                                time_to_live: 0,
                                rd_length: 0,
                                rd_data: Seq::empty(),
                            },
                            p + 4,
                        ),
                    )
                } else if p + 10 > b.len() {
                    None
                } else {
                    let ttl = spec_i32_be(b[p + 4], b[p + 5], b[p + 6], b[p + 7]);
                    let rdlen = spec_u16_be(b[p + 8], b[p + 9]);
                    if p + 10 + rdlen > b.len() {
                        None
                    } else {
                        Some(
                            (
                                RecordModel {
                                    name: decode_utf8(nb),
                                    dns_type: t,
                                    dns_class: c,
                                    time_to_live: ttl,
                                    rd_length: rdlen,
                                    rd_data: b.subrange(p + 10, p + 10 + rdlen),
                                },
                                p + 10 + rdlen,
                            ),
                        )
                    }
                }
            }
        },
    }
}

/// Deserializes one record. `begin` is the offset just after the record's
/// first length byte, as the enclosing message decoder threads it; the
/// returned offset points at the byte after the record, ready to be the
/// next record's length byte. The section kind tells, through
/// `has_rdata`, whether time to live and payload follow the class.
pub fn deserialize_record(bytes: &[u8], begin: usize, has_rdata: bool) -> (r: Result<
    (DnsRecord, usize),
    DnsError,
>)
    requires
        1 <= begin,
    ensures
        match r {
            Ok(pr) => {
                &&& spec_decode_record(bytes@, begin - 1, has_rdata) == Some(
                    (pr.0@, pr.1 as int),
                )
                &&& pr.1 <= bytes@.len()
            },
            Err(e) => {
                &&& spec_decode_record(bytes@, begin - 1, has_rdata) is None
                &&& e == DnsError::MalformedRecord
            },
        },
{
    let blen = bytes.len();
    let (nb, p) = match deserialize_name(bytes, begin - 1) {
        Ok(pr) => pr,
        Err(e) => {
            return Err(e);
        },
    };
    if nb.is_empty() {
        return Err(DnsError::MalformedRecord);
    }
    let name = match utf8_bytes_to_string(nb) {
        Some(name) => name,
        None => {
            return Err(DnsError::MalformedRecord);
        },
    };
    if blen - p < 4 {
        return Err(DnsError::MalformedRecord);
    }
    let tv = double_u8_to_u16(bytes, p);
    let cv = double_u8_to_u16(bytes, p + 2);
    let dns_type = DnsType::from_code(tv);
    let dns_class = DnsClass::from_code(cv);
    if !has_rdata {
        let rec = DnsRecord {
            name,
            dns_type,
            dns_class,
            time_to_live: 0,
            rd_length: 0,
            rd_data: Vec::new(),
        };
        return Ok((rec, p + 4));
    }
    if blen - p < 10 {
        return Err(DnsError::MalformedRecord);
    }
    let ttl = bytes_to_i32(bytes, p + 4);
    let rdlen = double_u8_to_u16(bytes, p + 8);
    if rdlen as usize > blen - (p + 10) {
        return Err(DnsError::MalformedRecord);
    }
    let mut rd_data: Vec<u8> = Vec::new();
    push_slice_range(&mut rd_data, bytes, p + 10, p + 10 + rdlen as usize);
    let rec = DnsRecord { name, dns_type, dns_class, time_to_live: ttl, rd_length: rdlen, rd_data };
    Ok((rec, p + 10 + rdlen as usize))
}

} // verus!
