use dns_proxy::dns_header::OpCode;
use dns_proxy::dns_header::QR;
use dns_proxy::dns_header::ResponseCode;
use dns_proxy::dns_header::deserialize_header;
use dns_proxy::dns_msg::DnsMsg;
use dns_proxy::dns_msg::deserialize;
use dns_proxy::dns_msg::msg_sendable;
use dns_proxy::dns_msg::serialize;
use dns_proxy::proxy::QueryPlan;
use dns_proxy::proxy::adjust_reply;
use dns_proxy::proxy::build_failure_reply;
use dns_proxy::proxy::merge_responses;
use dns_proxy::proxy::plan_query;
use dns_proxy::proxy::split_queries;

const SINGLE_QUESTION: [u8; 33] = [
    16, 191, 1, 0, 0, 1, 0, 0, 0, 0, 0, 0, 12, 99, 111, 100, 101, 99, 114, 97, 102, 116, 101,
    114, 115, 2, 105, 111, 0, 0, 1, 0, 1,
];

const TWO_QUESTIONS: [u8; 53] = [
    81, 180, 1, 0, 0, 2, 0, 0, 0, 0, 0, 0, 3, 97, 98, 99, 17, 108, 111, 110, 103, 97, 115, 115,
    100, 111, 109, 97, 105, 110, 110, 97, 109, 101, 3, 99, 111, 109, 0, 0, 1, 0, 1, 3, 100, 101,
    102, 192, 16, 0, 1, 0, 1,
];

// a reply with one answer for the given question, built from a decoded
// sub-query the way an upstream resolver would answer it
fn answer_reply(sub_query_bytes: &[u8]) -> DnsMsg {
    let mut reply = deserialize(sub_query_bytes).unwrap();
    let mut answer = reply.questions[0].clone();
    answer.time_to_live = 60;
    answer.rd_length = 4;
    answer.rd_data = vec![127, 0, 0, 1];
    reply.header.query = QR::Response;
    reply.header.answers_count = 1;
    reply.answers = vec![answer];
    reply
}

// Single-question passthrough: the plan hands back the input bytes
// byte for byte, and a standard-query reply is relayed unmodified.
#[test]
fn single_question_passthrough() {
    let (msg, plan) = plan_query(&SINGLE_QUESTION).unwrap();
    assert_eq!(1, msg.header.questions_count);
    match plan {
        QueryPlan::Forward(bytes) => assert_eq!(SINGLE_QUESTION.to_vec(), bytes),
        QueryPlan::Split(_) => panic!("a single question must be forwarded"),
    }

    let reply = [16u8, 191, 129, 0, 0, 1, 0, 1, 0, 0, 0, 0, 3, 97, 98, 99, 0, 0, 1, 0, 1];
    let relayed = adjust_reply(msg.header.op_code, &reply);
    assert_eq!(reply.to_vec(), relayed);
}

#[test]
fn multi_question_query_is_split() {
    let (msg, plan) = plan_query(&TWO_QUESTIONS).unwrap();
    let subs = match plan {
        QueryPlan::Split(subs) => subs,
        QueryPlan::Forward(_) => panic!("two questions must be split"),
    };
    assert_eq!(2, subs.len());
    for (i, sub) in subs.iter().enumerate() {
        let sub_msg = deserialize(sub).unwrap();
        assert_eq!(1, sub_msg.header.questions_count);
        assert_eq!(msg.header.id, sub_msg.header.id);
        assert_eq!(1, sub_msg.questions.len());
        assert_eq!(msg.questions[i].name, sub_msg.questions[0].name);
        assert!(sub_msg.answers.is_empty());
    }
    assert_eq!("abc.longassdomainname.com", msg.questions[0].name);
    assert_eq!("def.longassdomainname.com", msg.questions[1].name);
}

// Answer-count consistency: merging N one-answer replies gives a response
// whose answer count is N with the answers in question order.
#[test]
fn merged_answers_keep_question_order() {
    let client_msg = deserialize(&TWO_QUESTIONS).unwrap();
    let subs = split_queries(&client_msg);
    let replies: Vec<DnsMsg> = subs.iter().map(|s| answer_reply(s)).collect();

    let response = merge_responses(&client_msg, &replies);

    assert_eq!(QR::Response, response.header.query);
    assert_eq!(2, response.header.answers_count);
    assert_eq!(2, response.answers.len());
    assert_eq!("abc.longassdomainname.com", response.answers[0].name);
    assert_eq!("def.longassdomainname.com", response.answers[1].name);
    assert_eq!(ResponseCode::NoError, response.header.response_code);
    assert_eq!(client_msg.questions, response.questions);

    // the merged response still frames exactly and survives a round trip
    assert!(msg_sendable(&response));
    let bytes = serialize(&response);
    assert_eq!(response, deserialize(&bytes).unwrap());
}

// Opcode policy, split path: a non-standard opcode forces the response
// code of the merged response to NotImplemented.
#[test]
fn non_standard_opcode_gets_not_implemented_on_merge() {
    let mut query = TWO_QUESTIONS.to_vec();
    query[2] = 1 << 3; // opcode: inverse query
    let client_msg = deserialize(&query).unwrap();
    assert_eq!(OpCode::InverseQuery, client_msg.header.op_code);

    let subs = split_queries(&client_msg);
    let replies: Vec<DnsMsg> = subs.iter().map(|s| answer_reply(s)).collect();
    let response = merge_responses(&client_msg, &replies);

    assert_eq!(ResponseCode::NotImplemented, response.header.response_code);
}

// Opcode policy, passthrough path: the relayed reply's response code is
// forced to NotImplemented, and nothing else changes.
#[test]
fn non_standard_opcode_gets_not_implemented_on_passthrough() {
    let reply = [16u8, 191, 129, 0, 0, 1, 0, 1, 0, 0, 0, 0, 3, 97, 98, 99, 0, 0, 1, 0, 1];
    let relayed = adjust_reply(OpCode::ServerStatus, &reply);
    let header = deserialize_header(&relayed);
    assert_eq!(ResponseCode::NotImplemented, header.response_code);
    assert_eq!(16, relayed[0]);
    assert_eq!(reply[..3].to_vec(), relayed[..3].to_vec());
    assert_eq!(reply[4..].to_vec(), relayed[4..].to_vec());
}

#[test]
fn undecodable_datagram_gets_failure_reply() {
    // too short for even a header: nothing to echo, nothing to send
    assert_eq!(None, build_failure_reply(&[1, 2, 3]));

    // a header followed by garbage: echoed back as a format error
    let mut query = SINGLE_QUESTION.to_vec();
    query.truncate(20);
    let reply = build_failure_reply(&query).unwrap();
    let header = deserialize_header(&reply);
    assert_eq!(4287, header.id);
    assert_eq!(QR::Response, header.query);
    assert_eq!(ResponseCode::FormatError, header.response_code);
    assert_eq!(0, header.questions_count);
    assert_eq!(12, reply.len());

    // the opcode policy outranks the format error
    let mut query = SINGLE_QUESTION.to_vec();
    query[2] = 2 << 3; // opcode: server status
    query.truncate(20);
    let reply = build_failure_reply(&query).unwrap();
    let header = deserialize_header(&reply);
    assert_eq!(ResponseCode::NotImplemented, header.response_code);
}

// Zero-TTL answers, legal and common in DNS, survive merge,
// serialization and read-back unchanged.
#[test]
fn merged_zero_ttl_answers_round_trip() {
    let client_msg = deserialize(&TWO_QUESTIONS).unwrap();
    let subs = split_queries(&client_msg);
    let replies: Vec<DnsMsg> = subs
        .iter()
        .map(|s| {
            let mut reply = answer_reply(s);
            reply.answers[0].time_to_live = 0;
            reply
        })
        .collect();
    let response = merge_responses(&client_msg, &replies);
    let bytes = serialize(&response);
    let back = deserialize(&bytes).unwrap();
    assert_eq!(response, back);
    assert_eq!(2, back.header.answers_count);
    assert_eq!(2, back.answers.len());
    assert_eq!(0, back.answers[0].time_to_live);
    assert_eq!(vec![127, 0, 0, 1], back.answers[1].rd_data);
}
