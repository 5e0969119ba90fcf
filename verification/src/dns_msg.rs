//! Whole DNS messages: one header plus four record sections, serialized in
//! order and deserialized by threading the running byte offset through the
//! record codec, section counts taken from the header.

use vstd::prelude::*;
use crate::dns_header::DnsHeader;
use crate::dns_header::spec_serialize_header;
use crate::dns_header::spec_deserialize_header;
use crate::dns_header::serialize_header;
use crate::dns_header::deserialize_header;
use crate::dns_record::DnsRecord;
use crate::dns_record::RecordModel;
use crate::dns_record::DnsError;
use crate::dns_record::spec_serialize_record;
use crate::dns_record::serialize_record;
use crate::dns_record::spec_decode_record;
use crate::dns_record::deserialize_record;
use crate::dns_record::push_slice_range;
use crate::dns_record::record_sendable;
use crate::dns_record::lemma_decode_record_wf;
use crate::dns_record::lemma_record_round_trip;
use crate::dns_record::lemma_subrange_index;
use crate::dns_header::lemma_header_round_trip;

verus! {

/// A full DNS message.
#[derive(PartialEq, Eq, Debug)]
pub struct DnsMsg {
    pub header: DnsHeader,
    pub questions: Vec<DnsRecord>,
    pub answers: Vec<DnsRecord>,
    pub authority: Vec<DnsRecord>,
    pub additional: Vec<DnsRecord>,
}

/// The mathematical value of a message.
pub struct MsgModel {
    pub header: DnsHeader,
    pub questions: Seq<RecordModel>,
    pub answers: Seq<RecordModel>,
    pub authority: Seq<RecordModel>,
    pub additional: Seq<RecordModel>,
}

/// The records of a section, each taken at its mathematical value.
pub open spec fn rec_views(rs: Seq<DnsRecord>) -> Seq<RecordModel> {
    rs.map_values(|r: DnsRecord| r@)
}

impl View for DnsMsg {
    type V = MsgModel;

    open spec fn view(&self) -> MsgModel {
        MsgModel {
            header: self.header,
            questions: rec_views(self.questions@),
            answers: rec_views(self.answers@),
            authority: rec_views(self.authority@),
            additional: rec_views(self.additional@),
        }
    }
}

/// The concatenated wire forms of a sequence of records, all of one
/// section kind.
pub open spec fn spec_serialize_records(rs: Seq<RecordModel>, has_rdata: bool) -> Seq<u8>
    decreases rs.len(),
{
    if rs.len() == 0 {
        Seq::empty()
    } else {
        spec_serialize_record(rs[0], has_rdata) + spec_serialize_records(
            rs.drop_first(),
            has_rdata,
        )
    }
}

proof fn lemma_serialize_records_snoc(rs: Seq<RecordModel>, r: RecordModel, has_rdata: bool)
    ensures
        spec_serialize_records(rs.push(r), has_rdata) == spec_serialize_records(rs, has_rdata)
            + spec_serialize_record(r, has_rdata),
    decreases rs.len(),
{
    if rs.len() == 0 {
        assert(rs.push(r).drop_first() =~= Seq::<RecordModel>::empty());
        assert(spec_serialize_records(Seq::<RecordModel>::empty(), has_rdata) =~= Seq::<
            u8,
        >::empty());
        assert(rs.push(r)[0] == r);
        assert(spec_serialize_records(rs.push(r), has_rdata) =~= spec_serialize_records(
            rs,
            has_rdata,
        ) + spec_serialize_record(r, has_rdata));
    } else {
        assert(rs.push(r).drop_first() =~= rs.drop_first().push(r));
        lemma_serialize_records_snoc(rs.drop_first(), r, has_rdata);
        assert(rs.push(r)[0] == rs[0]);
        assert(spec_serialize_record(rs[0], has_rdata) + (spec_serialize_records(
            rs.drop_first(),
            has_rdata,
        ) + spec_serialize_record(r, has_rdata)) =~= (spec_serialize_record(rs[0], has_rdata)
            + spec_serialize_records(rs.drop_first(), has_rdata)) + spec_serialize_record(
            r,
            has_rdata,
        ));
    }
}

/// The wire form of a whole message: header bytes, then each section's
/// records in order; questions carry no resource data, the other three
/// sections do.
pub open spec fn spec_serialize_msg(m: MsgModel) -> Seq<u8> {
    spec_serialize_header(m.header) + spec_serialize_records(m.questions, false)
        + spec_serialize_records(m.answers, true) + spec_serialize_records(m.authority, true)
        + spec_serialize_records(m.additional, true)
}

/// Appends the wire forms of all records in `records` to `out`.
#[verifier::loop_isolation(false)]
fn push_records(out: &mut Vec<u8>, records: &Vec<DnsRecord>, has_rdata: bool)
    requires
        forall|i: int| 0 <= i < records@.len() ==> #[trigger] rec_views(records@)[i].sendable(),
    ensures
        final(out)@ == old(out)@ + spec_serialize_records(rec_views(records@), has_rdata),
{
    let ghost models = rec_views(records@);
    let n = records.len();
    let mut i: usize = 0;
    proof {
        assert(models.take(0) =~= Seq::<RecordModel>::empty());
    }
    while i < n
        invariant
            i <= n,
            out@ == old(out)@ + spec_serialize_records(models.take(i as int), has_rdata),
        decreases n - i,
    {
        let rb = serialize_record(&records[i], has_rdata);
        push_slice_range(out, rb.as_slice(), 0, rb.len());
        proof {
            assert(rb@.subrange(0, rb@.len() as int) =~= rb@);
            assert(models.take(i + 1) =~= models.take(i as int).push(models[i as int]));
            lemma_serialize_records_snoc(models.take(i as int), models[i as int], has_rdata);
            assert(out@ =~= old(out)@ + spec_serialize_records(models.take(i + 1), has_rdata));
        }
        i = i + 1;
    }
    proof {
        assert(models.take(n as int) =~= models);
    }
}

/// Serializes a whole message to its wire form. The caller must have
/// validated, with `msg_sendable` or by construction, that every record
/// can be framed exactly.
pub fn serialize(msg: &DnsMsg) -> (r: Vec<u8>)
    requires
        msg@.sendable(),
    ensures
        r@ == spec_serialize_msg(msg@),
{
    proof {
        assert(msg@.questions == rec_views(msg.questions@));
        assert(msg@.answers == rec_views(msg.answers@));
        assert(msg@.authority == rec_views(msg.authority@));
        assert(msg@.additional == rec_views(msg.additional@));
    }
    let mut bytes = serialize_header(&msg.header);
    push_records(&mut bytes, &msg.questions, false);
    push_records(&mut bytes, &msg.answers, true);
    push_records(&mut bytes, &msg.authority, true);
    push_records(&mut bytes, &msg.additional, true);
    proof {
        assert(bytes@ =~= spec_serialize_msg(msg@));
    }
    bytes
}

/// The `n` records decoded one after another from position `pos`, each
/// record's end feeding the next record's start, with the final position.
pub open spec fn spec_decode_records(b: Seq<u8>, pos: int, n: nat, has_rdata: bool) -> Option<
    (Seq<RecordModel>, int),
>
    decreases n,
{
    if n == 0 {
        Some((Seq::empty(), pos))
    } else {
        match spec_decode_record(b, pos, has_rdata) {
            None => None,
            Some(pr) => match spec_decode_records(b, pr.1, (n - 1) as nat, has_rdata) {
                None => None,
                Some(rr) => Some((seq![pr.0] + rr.0, rr.1)),
            },
        }
    }
}

/// Every record read back from a section is well-formed for it.
proof fn lemma_decode_records_wf(b: Seq<u8>, pos: int, n: nat, has_rdata: bool)
    requires
        spec_decode_records(b, pos, n, has_rdata) is Some,
    ensures
        ({
            let ms = spec_decode_records(b, pos, n, has_rdata).unwrap().0;
            forall|i: int| 0 <= i < ms.len() ==> #[trigger] ms[i].wf(has_rdata)
        }),
    decreases n,
{
    if n != 0 {
        match spec_decode_record(b, pos, has_rdata) {
            None => {
                assert(false);
            },
            Some(pr) => {
                lemma_decode_record_wf(b, pos, has_rdata);
                lemma_decode_records_wf(b, pr.1, (n - 1) as nat, has_rdata);
                let rest = spec_decode_records(b, pr.1, (n - 1) as nat, has_rdata).unwrap().0;
                let ms = spec_decode_records(b, pos, n, has_rdata).unwrap().0;
                assert forall|i: int| 0 <= i < ms.len() implies #[trigger] ms[i].wf(has_rdata) by {
                    if i == 0 {
                        assert(ms[0] == pr.0);
                    } else {
                        assert(ms[i] == rest[i - 1]);
                    }
                }
            },
        }
    }
}

/// A successful section decode yields exactly as many records as the
/// count it was asked for.
pub proof fn lemma_decode_records_count(b: Seq<u8>, pos: int, n: nat, has_rdata: bool)
    requires
        spec_decode_records(b, pos, n, has_rdata) is Some,
    ensures
        spec_decode_records(b, pos, n, has_rdata).unwrap().0.len() == n,
    decreases n,
{
    if n != 0 {
        match spec_decode_record(b, pos, has_rdata) {
            None => {
                assert(false);
            },
            Some(pr) => {
                lemma_decode_records_count(b, pr.1, (n - 1) as nat, has_rdata);
            },
        }
    }
}

/// Deserializes `n` records starting at offset `begin` (one past the first
/// record's first length byte), returning them with the offset one past
/// the last record's end.
#[verifier::loop_isolation(false)]
fn deserialize_records(bytes: &[u8], begin: usize, n: u16, has_rdata: bool) -> (r: Result<
    (Vec<DnsRecord>, usize),
    DnsError,

>)
    requires
        1 <= begin,
        bytes@.len() < usize::MAX,
    ensures
        match r {
            Ok(pr) => {
                &&& spec_decode_records(bytes@, begin - 1, n as nat, has_rdata) == Some(
                    (rec_views(pr.0@), pr.1 - 1),
                )
                &&& 1 <= pr.1
            },
            Err(e) => {
                &&& spec_decode_records(bytes@, begin - 1, n as nat, has_rdata) is None
                &&& e == DnsError::MalformedRecord
            },
        },
{
    let ghost gb = bytes@;
    let mut recs: Vec<DnsRecord> = Vec::new();
    let mut idx = begin;
    let mut i: u16 = 0;
    proof {
        assert(rec_views(recs@) =~= Seq::<RecordModel>::empty());
    }
    while i < n
        invariant
            i <= n,
            1 <= idx,
            match spec_decode_records(gb, idx - 1, (n - i) as nat, has_rdata) {
                None => spec_decode_records(gb, begin - 1, n as nat, has_rdata) is None,
                Some(rr) => spec_decode_records(gb, begin - 1, n as nat, has_rdata) == Some(
                    (rec_views(recs@) + rr.0, rr.1),
                ),
            },
        decreases n - i,
    {
        let (rec, end) = match deserialize_record(bytes, idx, has_rdata) {
            Ok(pr) => pr,
            Err(e) => {
                return Err(e);
            },
        };
        proof {
            match spec_decode_records(gb, end as int, (n - i - 1) as nat, has_rdata) {
                None => {},
                Some(rr) => {
                    assert(rec_views(recs@.push(rec)) =~= rec_views(recs@).push(rec@));
                    assert(rec_views(recs@) + (seq![rec@] + rr.0) =~= rec_views(recs@).push(rec@)
                        + rr.0);
                },
            }
        }
        recs.push(rec);
        idx = end + 1;
        i = i + 1;
    }
    proof {
        assert(rec_views(recs@) + Seq::<RecordModel>::empty() =~= rec_views(recs@));
    }
    Ok((recs, idx))
}

/// The message decoded from a whole buffer: the header from the first 12
/// bytes, then each section's records, counts taken from the header.
/// `None` where the buffer is shorter than a header or any record is
/// malformed or missing.
pub open spec fn spec_decode_msg(b: Seq<u8>) -> Option<MsgModel> {
    if b.len() < 12 {
        None
    } else {
        let h = spec_deserialize_header(b);
        match spec_decode_records(b, 12, h.questions_count as nat, false) {
            None => None,
            Some(q) => match spec_decode_records(b, q.1, h.answers_count as nat, true) {
                None => None,
                Some(an) => match spec_decode_records(b, an.1, h.authority_count as nat, true) {
                    None => None,
                    Some(au) => match spec_decode_records(
                        b,
                        au.1,
                        h.additional_count as nat,
                        true,
                    ) {
                        None => None,
                        Some(ad) => Some(
                            MsgModel {
                                header: h,
                                questions: q.0,
                                answers: an.0,
                                authority: au.0,
                                additional: ad.0,
                            },
                        ),
                    },
                },
            },
        }
    }
}

/// Section round trip: records well-formed for their section, written one
/// after another at `p`, are read back unchanged, exactly as many as were
/// written, with the cursor right after the last.
proof fn lemma_records_round_trip(b: Seq<u8>, p: int, ms: Seq<RecordModel>, has_rdata: bool)
    requires
        forall|i: int| 0 <= i < ms.len() ==> #[trigger] ms[i].wf(has_rdata),
        0 <= p,
        p + spec_serialize_records(ms, has_rdata).len() <= b.len(),
        b.subrange(p, p + spec_serialize_records(ms, has_rdata).len()) == spec_serialize_records(
            ms,
            has_rdata,
        ),
    ensures
        spec_decode_records(b, p, ms.len(), has_rdata) == Some(
            (ms, p + spec_serialize_records(ms, has_rdata).len()),
        ),
    decreases ms.len(),
{
    if ms.len() == 0 {
    } else {
        let sall = spec_serialize_records(ms, has_rdata);
        let s0 = spec_serialize_record(ms[0], has_rdata);
        let srest = spec_serialize_records(ms.drop_first(), has_rdata);
        assert(sall == s0 + srest);
        assert forall|j: int| 0 <= j < s0.len() implies b[p + j] == s0[j] by {
            lemma_subrange_index(b, p, p + sall.len(), sall, j);
        }
        assert(b.subrange(p, p + s0.len() as int) =~= s0);
        assert(ms[0].wf(has_rdata));
        lemma_record_round_trip(b, p, ms[0], has_rdata);
        let p1 = p + s0.len() as int;
        assert forall|j: int| 0 <= j < srest.len() implies b[p1 + j] == srest[j] by {
            lemma_subrange_index(b, p, p + sall.len(), sall, s0.len() as int + j);
            assert(sall[s0.len() + j] == srest[j]);
        }
        assert(b.subrange(p1, p1 + srest.len() as int) =~= srest);
        assert forall|i: int| 0 <= i < ms.drop_first().len() implies #[trigger] ms.drop_first()[i].wf(
            has_rdata,
        ) by {
            assert(ms.drop_first()[i] == ms[i + 1]);
        }
        lemma_records_round_trip(b, p1, ms.drop_first(), has_rdata);
        assert(seq![ms[0]] + ms.drop_first() =~= ms);
    }
}

/// The suffix a concatenation appends is read back by `subrange`.
proof fn lemma_suffix_subrange(x: Seq<u8>, y: Seq<u8>)
    ensures
        (x + y).subrange(x.len() as int, (x.len() + y.len()) as int) =~= y,
{
}

/// A `subrange` that stays inside the left operand ignores the right.
proof fn lemma_prefix_subrange(x: Seq<u8>, y: Seq<u8>, a: int, c: int)
    requires
        0 <= a <= c <= x.len(),
    ensures
        (x + y).subrange(a, c) =~= x.subrange(a, c),
{
}

/// Where each section's bytes sit inside a serialized message.
#[verifier::rlimit(80)]
proof fn lemma_msg_section_bytes(m: MsgModel)
    ensures
        ({
            let hb = spec_serialize_header(m.header);
            let s1 = spec_serialize_records(m.questions, false);
            let s2 = spec_serialize_records(m.answers, true);
            let s3 = spec_serialize_records(m.authority, true);
            let s4 = spec_serialize_records(m.additional, true);
            let b = spec_serialize_msg(m);
            let p1 = 12 + s1.len() as int;
            let p2 = p1 + s2.len() as int;
            let p3 = p2 + s3.len() as int;
            let p4 = p3 + s4.len() as int;
            &&& b.len() == p4
            &&& b.subrange(0, 12) == hb
            &&& b.subrange(12, p1) == s1
            &&& b.subrange(p1, p2) == s2
            &&& b.subrange(p2, p3) == s3
            &&& b.subrange(p3, p4) == s4
        }),
{
    let hb = spec_serialize_header(m.header);
    let s1 = spec_serialize_records(m.questions, false);
    let s2 = spec_serialize_records(m.answers, true);
    let s3 = spec_serialize_records(m.authority, true);
    let s4 = spec_serialize_records(m.additional, true);
    let b = spec_serialize_msg(m);
    assert(b == hb + s1 + s2 + s3 + s4);
    assert(hb.len() == 12);
    let p1 = 12 + s1.len() as int;
    let p2 = p1 + s2.len() as int;
    let p3 = p2 + s3.len() as int;
    let p4 = p3 + s4.len() as int;
    assert(b.subrange(p3, p4) =~= s4) by {
        lemma_suffix_subrange(hb + s1 + s2 + s3, s4);
    }
    assert(b.subrange(p2, p3) =~= s3) by {
        lemma_prefix_subrange(hb + s1 + s2 + s3, s4, p2, p3);
        lemma_suffix_subrange(hb + s1 + s2, s3);
    }
    assert(b.subrange(p1, p2) =~= s2) by {
        lemma_prefix_subrange(hb + s1 + s2 + s3, s4, p1, p2);
        lemma_prefix_subrange(hb + s1 + s2, s3, p1, p2);
        lemma_suffix_subrange(hb + s1, s2);
    }
    assert(b.subrange(12, p1) =~= s1) by {
        lemma_prefix_subrange(hb + s1 + s2 + s3, s4, 12, p1);
        lemma_prefix_subrange(hb + s1 + s2, s3, 12, p1);
        lemma_prefix_subrange(hb + s1, s2, 12, p1);
        lemma_suffix_subrange(hb, s1);
    }
    assert(b.subrange(0, 12) =~= hb) by {
        lemma_prefix_subrange(hb + s1 + s2 + s3, s4, 0, 12);
        lemma_prefix_subrange(hb + s1 + s2, s3, 0, 12);
        lemma_prefix_subrange(hb + s1, s2, 0, 12);
        lemma_prefix_subrange(hb, s1, 0, 12);
        assert(hb.subrange(0, 12) =~= hb);
    }
}

/// The header of a serialized message reads back unchanged.
proof fn lemma_msg_header_part(m: MsgModel)
    requires
        m.header.wf(),
        spec_serialize_msg(m).subrange(0, 12) == spec_serialize_header(m.header),
        spec_serialize_msg(m).len() >= 12,
    ensures
        spec_deserialize_header(spec_serialize_msg(m)) == m.header,
{
    let hb = spec_serialize_header(m.header);
    let b = spec_serialize_msg(m);
    lemma_header_round_trip(m.header);
    assert forall|i: int| 0 <= i < 12 implies b[i] == hb[i] by {
        assert(b.subrange(0, 12)[i] == b[i]);
    }
    assert(spec_deserialize_header(b) == spec_deserialize_header(hb));
}

/// Message round trip: a well-formed message, serialized and deserialized
/// again, comes back unchanged, header counts, names, records and all.
#[verifier::rlimit(80)]
pub proof fn lemma_msg_round_trip(m: MsgModel)
    requires
        m.wf(),
    ensures
        spec_decode_msg(spec_serialize_msg(m)) == Some(m),
{
    let s1 = spec_serialize_records(m.questions, false);
    let s2 = spec_serialize_records(m.answers, true);
    let s3 = spec_serialize_records(m.authority, true);
    let s4 = spec_serialize_records(m.additional, true);
    let b = spec_serialize_msg(m);
    let p1 = 12 + s1.len() as int;
    let p2 = p1 + s2.len() as int;
    let p3 = p2 + s3.len() as int;
    lemma_msg_section_bytes(m);
    lemma_msg_header_part(m);
    lemma_records_round_trip(b, 12, m.questions, false);
    lemma_records_round_trip(b, p1, m.answers, true);
    lemma_records_round_trip(b, p2, m.authority, true);
    lemma_records_round_trip(b, p3, m.additional, true);
}

/// Deserializes a whole message. A buffer shorter than a header is a
/// `MalformedHeader` error; a buffer whose records cannot be decoded as
/// the header's counts claim is a `MalformedRecord` error.
pub fn deserialize(msg_bytes: &[u8]) -> (r: Result<DnsMsg, DnsError>)
    requires
        msg_bytes@.len() < usize::MAX,
    ensures
        match r {
            Ok(m) => {
                &&& spec_decode_msg(msg_bytes@) == Some(m@)
                &&& m@.wf()
                &&& m@.sendable()
                &&& m@.questions.len() == m@.header.questions_count
                &&& m@.answers.len() == m@.header.answers_count
                &&& m@.authority.len() == m@.header.authority_count
                &&& m@.additional.len() == m@.header.additional_count
            },
            Err(e) => {
                &&& spec_decode_msg(msg_bytes@) is None
                &&& e == (if msg_bytes@.len() < 12 {
                    DnsError::MalformedHeader
                } else {
                    DnsError::MalformedRecord
                })
            },
        },
{
    if msg_bytes.len() < 12 {
        return Err(DnsError::MalformedHeader);
    }
    let header = deserialize_header(msg_bytes);
    let (questions, i1) = match deserialize_records(msg_bytes, 13, header.questions_count, false) {
        Ok(pr) => pr,
        Err(e) => {
            return Err(e);
        },
    };
    let (answers, i2) = match deserialize_records(msg_bytes, i1, header.answers_count, true) {
        Ok(pr) => pr,
        Err(e) => {
            return Err(e);
        },
    };
    let (authority, i3) = match deserialize_records(msg_bytes, i2, header.authority_count, true) {
        Ok(pr) => pr,
        Err(e) => {
            return Err(e);
        },
    };
    let (additional, _i4) = match deserialize_records(msg_bytes, i3, header.additional_count, true) {
        Ok(pr) => pr,
        Err(e) => {
            return Err(e);
        },
    };
    let r = DnsMsg { header, questions, answers, authority, additional };
    proof {
        lemma_decode_records_count(msg_bytes@, 12, header.questions_count as nat, false);
        lemma_decode_records_count(msg_bytes@, i1 - 1, header.answers_count as nat, true);
        lemma_decode_records_count(msg_bytes@, i2 - 1, header.authority_count as nat, true);
        lemma_decode_records_count(msg_bytes@, i3 - 1, header.additional_count as nat, true);
        lemma_decode_records_wf(msg_bytes@, 12, header.questions_count as nat, false);
        lemma_decode_records_wf(msg_bytes@, i1 - 1, header.answers_count as nat, true);
        lemma_decode_records_wf(msg_bytes@, i2 - 1, header.authority_count as nat, true);
        lemma_decode_records_wf(msg_bytes@, i3 - 1, header.additional_count as nat, true);
        assert(r@.questions == rec_views(questions@));
        assert(r@.answers == rec_views(answers@));
        assert(r@.authority == rec_views(authority@));
        assert(r@.additional == rec_views(additional@));
        assert(r@.wf());
        lemma_msg_wf_sendable(r@);
    }
    Ok(r)
}

/// Copies a section of records, keeping each record's value.
pub(crate) fn clone_records(rs: &Vec<DnsRecord>) -> (r: Vec<DnsRecord>)
    ensures
        rec_views(r@) == rec_views(rs@),
{
    let mut out: Vec<DnsRecord> = Vec::new();
    let n = rs.len();
    let mut i: usize = 0;
    while i < n
        invariant
            i <= n,
            n == rs@.len(),
            out@.len() == i,
            forall|j: int| 0 <= j < i ==> out@[j]@ == rs@[j]@,
        decreases n - i,
    {
        out.push(rs[i].clone());
        i = i + 1;
    }
    proof {
        assert(rec_views(out@) =~= rec_views(rs@));
    }
    out
}

impl Clone for DnsMsg {
    fn clone(&self) -> (r: DnsMsg)
        ensures
            r@ == self@,
    {
        DnsMsg {
            header: self.header,
            questions: clone_records(&self.questions),
            answers: clone_records(&self.answers),
            authority: clone_records(&self.authority),
            additional: clone_records(&self.additional),
        }
    }
}


impl MsgModel {
    /// Well-formed throughout: header bit-fields in range, every count
    /// matching its section's length, and every record well-formed for
    /// its section.
    pub open spec fn wf(self) -> bool {
        &&& self.header.wf()
        &&& self.header.questions_count == self.questions.len()
        &&& self.header.answers_count == self.answers.len()
        &&& self.header.authority_count == self.authority.len()
        &&& self.header.additional_count == self.additional.len()
        &&& forall|i: int| 0 <= i < self.questions.len() ==> #[trigger] self.questions[i].wf(false)
        &&& forall|i: int| 0 <= i < self.answers.len() ==> #[trigger] self.answers[i].wf(true)
        &&& forall|i: int| 0 <= i < self.authority.len() ==> #[trigger] self.authority[i].wf(true)
        &&& forall|i: int|
            0 <= i < self.additional.len() ==> #[trigger] self.additional[i].wf(true)
    }

    /// Every record of every section can be framed exactly.
    pub open spec fn sendable(self) -> bool {
        &&& forall|i: int| 0 <= i < self.questions.len() ==> #[trigger] self.questions[i].sendable()
        &&& forall|i: int| 0 <= i < self.answers.len() ==> #[trigger] self.answers[i].sendable()
        &&& forall|i: int| 0 <= i < self.authority.len() ==> #[trigger] self.authority[i].sendable()
        &&& forall|i: int|
            0 <= i < self.additional.len() ==> #[trigger] self.additional[i].sendable()
    }
}

/// A well-formed message can be framed exactly.
pub proof fn lemma_msg_wf_sendable(m: MsgModel)
    requires
        m.wf(),
    ensures
        m.sendable(),
{
    assert forall|i: int| 0 <= i < m.questions.len() implies #[trigger] m.questions[i].sendable() by {
        assert(m.questions[i].wf(false));
    }
    assert forall|i: int| 0 <= i < m.answers.len() implies #[trigger] m.answers[i].sendable() by {
        assert(m.answers[i].wf(true));
    }
    assert forall|i: int| 0 <= i < m.authority.len() implies #[trigger] m.authority[i].sendable() by {
        assert(m.authority[i].wf(true));
    }
    assert forall|i: int| 0 <= i < m.additional.len() implies #[trigger] m.additional[i].sendable() by {
        assert(m.additional[i].wf(true));
    }
}

/// Checks one section, record by record.
fn section_sendable(rs: &Vec<DnsRecord>) -> (b: bool)
    ensures
        b == (forall|i: int| 0 <= i < rs@.len() ==> #[trigger] rec_views(rs@)[i].sendable()),
{
    let n = rs.len();
    let mut i: usize = 0;
    while i < n
        invariant
            i <= n,
            n == rs@.len(),
            forall|j: int| 0 <= j < i ==> #[trigger] rec_views(rs@)[j].sendable(),
        decreases n - i,
    {
        if !record_sendable(&rs[i]) {
            proof {
                assert(!(rec_views(rs@)[i as int].sendable()));
            }
            return false;
        }
        i = i + 1;
    }
    true
}

/// Checks, before a message is sent, that every record of every section
/// can be framed exactly; an oversized label is rejected here rather than
/// truncated on the wire.
pub fn msg_sendable(msg: &DnsMsg) -> (b: bool)
    ensures
        b == msg@.sendable(),
{
    let qs = section_sendable(&msg.questions);
    let an = section_sendable(&msg.answers);
    let au = section_sendable(&msg.authority);
    let ad = section_sendable(&msg.additional);
    let b = qs && an && au && ad;
    proof {
        assert(msg@.questions == rec_views(msg.questions@));
        assert(msg@.answers == rec_views(msg.answers@));
        assert(msg@.authority == rec_views(msg.authority@));
        assert(msg@.additional == rec_views(msg.additional@));
        if !qs {
            assert(!(forall|i: int|
                0 <= i < rec_views(msg.questions@).len() ==> #[trigger] rec_views(
                    msg.questions@,
                )[i].sendable()));
        }
        if !an {
            assert(!(forall|i: int|
                0 <= i < rec_views(msg.answers@).len() ==> #[trigger] rec_views(
                    msg.answers@,
                )[i].sendable()));
        }
        if !au {
            assert(!(forall|i: int|
                0 <= i < rec_views(msg.authority@).len() ==> #[trigger] rec_views(
                    msg.authority@,
                )[i].sendable()));
        }
        if !ad {
            assert(!(forall|i: int|
                0 <= i < rec_views(msg.additional@).len() ==> #[trigger] rec_views(
                    msg.additional@,
                )[i].sendable()));
        }
        assert(b == msg@.sendable());
    }
    b
}

} // verus!
