//! The forwarding proxy's decisions, as pure functions: whether to forward
//! a client datagram verbatim or split it, the single-question sub-queries,
//! the merged response, the opcode policy, and the reply sent for a
//! datagram that could not be decoded.

use vstd::prelude::*;
use vstd::pervasive::VecAdditionalExecFns;
use crate::dns_header::DnsHeader;
use crate::dns_header::QR;
use crate::dns_header::OpCode;
use crate::dns_header::ResponseCode;
use crate::dns_header::spec_serialize_header;
use crate::dns_header::spec_deserialize_header;
use crate::dns_header::spec_response_code_from;
use crate::dns_header::serialize_header;
use crate::dns_header::deserialize_header;
use crate::dns_record::DnsRecord;
use crate::dns_record::RecordModel;
use crate::dns_record::DnsError;
use crate::dns_record::push_slice_range;
use crate::dns_msg::DnsMsg;
use crate::dns_msg::MsgModel;
use crate::dns_msg::rec_views;
use crate::dns_msg::spec_serialize_msg;
use crate::dns_msg::spec_decode_msg;
use crate::dns_msg::serialize;
use crate::dns_msg::deserialize;
use crate::dns_msg::clone_records;
use crate::dns_msg::lemma_msg_round_trip;

verus! {

/// The single-question message sent upstream for question `i` of `m`: the
/// original header with its question count forced to one, that question
/// alone, and no other records.
pub open spec fn spec_sub_query(m: MsgModel, i: int) -> MsgModel {
    MsgModel {
        header: DnsHeader { questions_count: 1, ..m.header },
        questions: seq![m.questions[i]],
        answers: Seq::empty(),
        authority: Seq::empty(),
        additional: Seq::empty(),
    }
}

/// Builds and serializes one single-question sub-query per question.
#[verifier::loop_isolation(false)]
pub fn split_queries(msg: &DnsMsg) -> (r: Vec<Vec<u8>>)
    requires
        forall|i: int|
            0 <= i < msg@.questions.len() ==> #[trigger] msg@.questions[i].sendable(),
    ensures
        r@.len() == msg@.questions.len(),
        forall|i: int|
            0 <= i < r@.len() ==> #[trigger] r@[i]@ == spec_serialize_msg(
                spec_sub_query(msg@, i),
            ),
{
    let mut out: Vec<Vec<u8>> = Vec::new();
    let n = msg.questions.len();
    let mut i: usize = 0;
    while i < n
        invariant
            i <= n,
            n == msg.questions@.len(),
            out@.len() == i,
            forall|j: int|
                0 <= j < i ==> #[trigger] out@[j]@ == spec_serialize_msg(
                    spec_sub_query(msg@, j),
                ),
        decreases n - i,
    {
        let mut header = msg.header;
        header.questions_count = 1;
        let mut qs: Vec<DnsRecord> = Vec::new();
        qs.push(msg.questions[i].clone());
        let sub = DnsMsg {
            header,
            questions: qs,
            answers: Vec::new(),
            authority: Vec::new(),
            additional: Vec::new(),
        };
        proof {
            assert(rec_views(sub.questions@) =~= seq![msg@.questions[i as int]]);
            assert(rec_views(Seq::<DnsRecord>::empty()) =~= Seq::<RecordModel>::empty());
            assert(sub@ == spec_sub_query(msg@, i as int));
            assert(msg@.questions[i as int].sendable());
            assert forall|j: int| 0 <= j < sub@.questions.len() implies #[trigger] sub@.questions[j].sendable() by {
                assert(sub@.questions[j] == msg@.questions[i as int]);
            }
            assert(sub@.sendable());
        }
        let sb = serialize(&sub);
        out.push(sb);
        i = i + 1;
    }
    out
}

/// All answer records of a sequence of replies, in reply order.
pub open spec fn spec_concat_answers(rs: Seq<MsgModel>) -> Seq<RecordModel>
    decreases rs.len(),
{
    if rs.len() == 0 {
        Seq::empty()
    } else {
        rs[0].answers + spec_concat_answers(rs.drop_first())
    }
}

proof fn lemma_concat_answers_snoc(rs: Seq<MsgModel>, m: MsgModel)
    ensures
        spec_concat_answers(rs.push(m)) == spec_concat_answers(rs) + m.answers,
    decreases rs.len(),
{
    if rs.len() == 0 {
        assert(rs.push(m).drop_first() =~= Seq::<MsgModel>::empty());
        assert(spec_concat_answers(Seq::<MsgModel>::empty()) =~= Seq::<RecordModel>::empty());
        assert(rs.push(m)[0] == m);
        assert(spec_concat_answers(rs.push(m)) =~= spec_concat_answers(rs) + m.answers);
    } else {
        assert(rs.push(m).drop_first() =~= rs.drop_first().push(m));
        lemma_concat_answers_snoc(rs.drop_first(), m);
        assert(rs.push(m)[0] == rs[0]);
        assert(rs[0].answers + (spec_concat_answers(rs.drop_first()) + m.answers) =~= (rs[0].answers
            + spec_concat_answers(rs.drop_first())) + m.answers);
    }
}

/// The response code after the opcode policy: anything but a standard
/// query is answered NotImplemented.
pub open spec fn spec_policy_rcode(h: DnsHeader) -> ResponseCode {
    if h.op_code == OpCode::StandardQuery {
        h.response_code
    } else {
        ResponseCode::NotImplemented
    }
}

/// The merged response for a split query: the client's message with the
/// query flag set to response, the answer count set to the question count,
/// the answers replaced by every reply's answers in reply order, and the
/// opcode policy applied.
pub open spec fn spec_merge(m: MsgModel, rs: Seq<MsgModel>) -> MsgModel {
    MsgModel {
        header: DnsHeader {
            query: QR::Response,
            answers_count: m.header.questions_count,
            response_code: spec_policy_rcode(m.header),
            ..m.header
        },
        questions: m.questions,
        answers: spec_concat_answers(rs),
        authority: m.authority,
        additional: m.additional,
    }
}

/// Merges the upstream replies of a split query into the response sent
/// back to the client.
#[verifier::loop_isolation(false)]
pub fn merge_responses(client_msg: &DnsMsg, replies: &Vec<DnsMsg>) -> (r: DnsMsg)
    ensures
        r@ == spec_merge(client_msg@, replies@.map_values(|m: DnsMsg| m@)),
{
    let ghost rviews = replies@.map_values(|m: DnsMsg| m@);
    let mut header = client_msg.header;
    header.query = QR::Response;
    header.answers_count = header.questions_count;
    if !(header.op_code == OpCode::StandardQuery) {
        header.response_code = ResponseCode::NotImplemented;
    }

    let mut answers: Vec<DnsRecord> = Vec::new();
    let n = replies.len();
    let mut i: usize = 0;
    proof {
        assert(rviews.take(0) =~= Seq::<MsgModel>::empty());
        assert(spec_concat_answers(Seq::<MsgModel>::empty()) =~= Seq::<RecordModel>::empty());
        assert(rec_views(answers@) =~= Seq::<RecordModel>::empty());
    }
    while i < n
        invariant
            i <= n,
            rec_views(answers@) == spec_concat_answers(rviews.take(i as int)),
        decreases n - i,
    {
        let mut more = clone_records(&replies[i].answers);
        let ghost before = answers@;
        answers.append(&mut more);
        proof {
            assert(rec_views(answers@) =~= rec_views(before) + rec_views(
                replies@[i as int].answers@,
            ));
            assert(rviews.take(i + 1) =~= rviews.take(i as int).push(rviews[i as int]));
            lemma_concat_answers_snoc(rviews.take(i as int), rviews[i as int]);
        }
        i = i + 1;
    }
    proof {
        assert(rviews.take(n as int) =~= rviews);
    }

    let r = DnsMsg {
        header,
        questions: clone_records(&client_msg.questions),
        answers,
        authority: clone_records(&client_msg.authority),
        additional: clone_records(&client_msg.additional),
    };
    r
}

/// Answer-count consistency: with one reply per question and exactly one
/// answer in each reply, the merged response's answer count equals the
/// question count, the answers section holds exactly that many records,
/// and answer `i` is the answer of reply `i`, keeping question order.
pub proof fn lemma_merge_answer_counts(m: MsgModel, rs: Seq<MsgModel>)
    requires
        rs.len() == m.header.questions_count,
        forall|i: int| 0 <= i < rs.len() ==> #[trigger] rs[i].answers.len() == 1,
    ensures
        spec_merge(m, rs).header.answers_count == m.header.questions_count,
        spec_merge(m, rs).answers.len() == m.header.questions_count,
        forall|i: int|
            0 <= i < rs.len() ==> #[trigger] spec_merge(m, rs).answers[i] == rs[i].answers[0],
{
    lemma_concat_answers_one_each(rs);
}

proof fn lemma_concat_answers_one_each(rs: Seq<MsgModel>)
    requires
        forall|i: int| 0 <= i < rs.len() ==> #[trigger] rs[i].answers.len() == 1,
    ensures
        spec_concat_answers(rs).len() == rs.len(),
        forall|i: int|
            0 <= i < rs.len() ==> #[trigger] spec_concat_answers(rs)[i] == rs[i].answers[0],
    decreases rs.len(),
{
    if rs.len() == 0 {
    } else {
        let rest = rs.drop_first();
        assert forall|i: int| 0 <= i < rest.len() implies #[trigger] rest[i].answers.len()
            == 1 by {
            assert(rest[i] == rs[i + 1]);
        }
        lemma_concat_answers_one_each(rest);
        assert forall|i: int| 0 <= i < rs.len() implies #[trigger] spec_concat_answers(rs)[i]
            == rs[i].answers[0] by {
            if i == 0 {
                assert(spec_concat_answers(rs)[0] == rs[0].answers[0]);
            } else {
                assert(spec_concat_answers(rs)[i] == spec_concat_answers(rest)[i - 1]);
                assert(rest[i - 1] == rs[i]);
            }
        }
    }
}

/// Answer-count consistency on the wire: a merged response built from a
/// well-formed query and one well-formed single-answer reply per
/// question, serialized and read back, carries the question count as its
/// answer count and exactly those answers, in question order.
pub proof fn lemma_merge_round_trip(m: MsgModel, rs: Seq<MsgModel>)
    requires
        m.wf(),
        rs.len() == m.header.questions_count,
        forall|i: int| 0 <= i < rs.len() ==> #[trigger] rs[i].answers.len() == 1,
        forall|i: int| 0 <= i < rs.len() ==> #[trigger] rs[i].answers[0].wf(true),
    ensures
        spec_decode_msg(spec_serialize_msg(spec_merge(m, rs))) == Some(spec_merge(m, rs)),
        spec_merge(m, rs).header.answers_count == m.header.questions_count,
        spec_merge(m, rs).answers.len() == m.header.questions_count,
        forall|i: int|
            0 <= i < rs.len() ==> #[trigger] spec_merge(m, rs).answers[i] == rs[i].answers[0],
{
    lemma_merge_answer_counts(m, rs);
    let merged = spec_merge(m, rs);
    assert forall|i: int| 0 <= i < merged.questions.len() implies #[trigger] merged.questions[i].wf(
        false,
    ) by {
        assert(m.questions[i].wf(false));
    }
    assert forall|i: int| 0 <= i < merged.answers.len() implies #[trigger] merged.answers[i].wf(
        true,
    ) by {
        assert(merged.answers[i] == rs[i].answers[0]);
        assert(rs[i].answers[0].wf(true));
    }
    assert forall|i: int| 0 <= i < merged.authority.len() implies #[trigger] merged.authority[i].wf(
        true,
    ) by {
        assert(m.authority[i].wf(true));
    }
    assert forall|i: int|
        0 <= i < merged.additional.len() implies #[trigger] merged.additional[i].wf(true) by {
        assert(m.additional[i].wf(true));
    }
    assert(merged.wf());
    lemma_msg_round_trip(merged);
}

/// Opcode policy on the split path: whatever the replies hold, a query
/// whose opcode is not a standard query is answered NotImplemented.
pub proof fn lemma_opcode_policy_merge(m: MsgModel, rs: Seq<MsgModel>)
    requires
        m.header.op_code != OpCode::StandardQuery,
    ensures
        spec_merge(m, rs).header.response_code == ResponseCode::NotImplemented,
{
}

/// A relayed reply with its response-code bits forced to NotImplemented;
/// a reply too short to carry them is left alone.
pub open spec fn spec_force_not_implemented(b: Seq<u8>) -> Seq<u8> {
    if b.len() < 4 {
        b
    } else {
        b.update(3, (b[3] / 16 * 16 + 4) as u8)
    }
}

/// The bytes relayed to the client on the passthrough path: the upstream
/// reply byte for byte when the query's opcode was a standard query, and
/// with the response code forced to NotImplemented otherwise.
pub fn adjust_reply(op_code: OpCode, reply: &[u8]) -> (r: Vec<u8>)
    ensures
        op_code == OpCode::StandardQuery ==> r@ == reply@,
        op_code != OpCode::StandardQuery ==> r@ == spec_force_not_implemented(reply@),
{
    let mut out: Vec<u8> = Vec::new();
    push_slice_range(&mut out, reply, 0, reply.len());
    proof {
        assert(out@ =~= reply@);
    }
    if !(op_code == OpCode::StandardQuery) && out.len() >= 4 {
        let b3 = out[3];
        out.set(3, b3 / 16 * 16 + 4);
    }
    out
}

/// Opcode policy on the passthrough path: a reply long enough to carry a
/// header deserializes, after the forcing, with response code
/// NotImplemented, every other header field untouched.
pub proof fn lemma_opcode_policy_passthrough(reply: Seq<u8>)
    requires
        reply.len() >= 12,
    ensures
        spec_deserialize_header(spec_force_not_implemented(reply)).response_code
            == ResponseCode::NotImplemented,
        spec_deserialize_header(spec_force_not_implemented(reply)) == (DnsHeader {
            response_code: ResponseCode::NotImplemented,
            ra: spec_deserialize_header(reply).ra,
            z: spec_deserialize_header(reply).z,
            ..spec_deserialize_header(reply)
        }),
{
    let b3 = reply[3];
    let nb3 = (b3 / 16 * 16 + 4) as u8;
    let fb = spec_force_not_implemented(reply);
    assert(nb3 % 16 == 4 && nb3 / 128 == b3 / 128 && nb3 / 16 % 8 == b3 / 16 % 8) by (bit_vector)
        requires
            nb3 == (b3 / 16 * 16 + 4) as u8,
    ;
    assert(spec_response_code_from(4) == ResponseCode::NotImplemented);
    assert(fb[3] == nb3);
    assert(fb[0] == reply[0] && fb[1] == reply[1] && fb[2] == reply[2]);
    assert(fb[4] == reply[4] && fb[5] == reply[5] && fb[6] == reply[6] && fb[7] == reply[7]);
    assert(fb[8] == reply[8] && fb[9] == reply[9] && fb[10] == reply[10] && fb[11] == reply[11]);
}

/// What the proxy does with one decoded client datagram.
#[derive(PartialEq, Eq, Debug)]
pub enum QueryPlan {
    /// Send exactly these bytes upstream and relay the reply.
    Forward(Vec<u8>),
    /// Send each of these sub-queries upstream and merge the replies.
    Split(Vec<Vec<u8>>),
}

/// Decides what to do with one client datagram: a query with a single
/// question is forwarded byte for byte; one with any other question count
/// is split into one single-question query per question; a datagram that
/// does not decode is reported as the decode error.
pub fn plan_query(bytes: &[u8]) -> (r: Result<(DnsMsg, QueryPlan), DnsError>)
    requires
        bytes@.len() < usize::MAX,
    ensures
        match r {
            Ok(pr) => {
                &&& spec_decode_msg(bytes@) == Some(pr.0@)
                &&& pr.0@.header.questions_count == 1 ==> (pr.1 matches QueryPlan::Forward(fw)
                    && fw@ == bytes@)
                &&& pr.0@.header.questions_count != 1 ==> (pr.1 matches QueryPlan::Split(subs)
                    && subs@.len() == pr.0@.questions.len() && (forall|i: int|
                    0 <= i < subs@.len() ==> #[trigger] subs@[i]@ == spec_serialize_msg(
                        spec_sub_query(pr.0@, i),
                    )))
            },
            Err(e) => {
                &&& spec_decode_msg(bytes@) is None
                &&& e == (if bytes@.len() < 12 {
                    DnsError::MalformedHeader
                } else {
                    DnsError::MalformedRecord
                })
            },
        },
{
    let msg = match deserialize(bytes) {
        Ok(m) => m,
        Err(e) => {
            return Err(e);
        },
    };
    if msg.header.questions_count == 1 {
        let mut copy: Vec<u8> = Vec::new();
        push_slice_range(&mut copy, bytes, 0, bytes.len());
        proof {
            assert(copy@ =~= bytes@);
        }
        Ok((msg, QueryPlan::Forward(copy)))
    } else {
        let subs = split_queries(&msg);
        Ok((msg, QueryPlan::Split(subs)))
    }
}

/// The reply sent for a datagram that could not be decoded: its header
/// echoed back with the query flag set to response, every count zeroed and
/// the response code FormatError — NotImplemented where the opcode policy
/// strikes first — or nothing at all when not even a header arrived.
pub open spec fn spec_failure_reply(b: Seq<u8>) -> Option<Seq<u8>> {
    if b.len() < 12 {
        None
    } else {
        let h = spec_deserialize_header(b);
        Some(
            spec_serialize_header(
                DnsHeader {
                    query: QR::Response,
                    response_code: if h.op_code == OpCode::StandardQuery {
                        ResponseCode::FormatError
                    } else {
                        ResponseCode::NotImplemented
                    },
                    questions_count: 0,
                    answers_count: 0,
                    authority_count: 0,
                    additional_count: 0,
                    ..h
                },
            ),
        )
    }
}

/// Builds the failure reply for an undecodable datagram.
pub fn build_failure_reply(bytes: &[u8]) -> (r: Option<Vec<u8>>)
    ensures
        match r {
            Some(v) => spec_failure_reply(bytes@) == Some(v@),
            None => spec_failure_reply(bytes@) is None,
        },
{
    if bytes.len() < 12 {
        return None;
    }
    let mut header = deserialize_header(bytes);
    header.query = QR::Response;
    header.response_code = if header.op_code == OpCode::StandardQuery {
        ResponseCode::FormatError
    } else {
        ResponseCode::NotImplemented
    };
    header.questions_count = 0;
    header.answers_count = 0;
    header.authority_count = 0;
    header.additional_count = 0;
    Some(serialize_header(&header))
}

} // verus!
