use dns_proxy::dns_header::DnsHeader;
use dns_proxy::dns_header::OpCode;
use dns_proxy::dns_header::QR;
use dns_proxy::dns_header::ResponseCode;
use dns_proxy::dns_msg::DnsMsg;
use dns_proxy::dns_msg::deserialize;
use dns_proxy::dns_msg::serialize;
use dns_proxy::dns_record::DnsClass;
use dns_proxy::dns_record::DnsError;
use dns_proxy::dns_record::DnsRecord;
use dns_proxy::dns_record::DnsType;
use dns_proxy::dns_record::deserialize_record;

fn question(name: &str) -> DnsRecord {
    DnsRecord {
        name: name.to_string(),
        dns_type: DnsType::A,
        dns_class: DnsClass::IN,
        time_to_live: 0,
        rd_length: 0,
        rd_data: vec![],
    }
}

#[test]
fn main_test_serialize() {
    let request = [
        81, 180, 1, 0, 0, 2, 0, 0, 0, 0, 0, 0, 3, 97, 98, 99, 17, 108, 111, 110, 103, 97, 115,
        115, 100, 111, 109, 97, 105, 110, 110, 97, 109, 101, 3, 99, 111, 109, 0, 0, 1, 0, 1, 3,
        100, 101, 102, 192, 16, 0, 1, 0, 1,
    ];

    let expected_msg = DnsMsg {
        header: DnsHeader {
            id: 20916,
            query: QR::Query,
            op_code: OpCode::StandardQuery,
            aa: false,
            tc: false,
            rd: true,
            ra: false,
            z: 0,
            response_code: ResponseCode::NoError,
            questions_count: 2,
            answers_count: 0,
            authority_count: 0,
            additional_count: 0,
        },
        questions: vec![
            question("abc.longassdomainname.com"),
            question("def.longassdomainname.com"),
        ],
        answers: vec![],
        authority: vec![],
        additional: vec![],
    };

    let msg = deserialize(&request).unwrap();
    assert_eq!(expected_msg, msg);

    let msg_bytes = serialize(&expected_msg);
    let msg = deserialize(&msg_bytes).unwrap();
    assert_eq!(expected_msg, msg);

    let result = [
        81, 180, 1, 0, 0, 2, 0, 0, 0, 0, 0, 0, 3, 97, 98, 99, 17, 108, 111, 110, 103, 97, 115,
        115, 100, 111, 109, 97, 105, 110, 110, 97, 109, 101, 3, 99, 111, 109, 0, 0, 1, 0, 1, 3,
        100, 101, 102, 17, 108, 111, 110, 103, 97, 115, 115, 100, 111, 109, 97, 105, 110, 110,
        97, 109, 101, 3, 99, 111, 109, 0, 0, 1, 0, 1,
    ];
    let msg = deserialize(&result).unwrap();
    assert_eq!(expected_msg, msg);

    // re-serializing yields the fully expanded wire form
    assert_eq!(result.to_vec(), serialize(&msg));
}

#[test]
fn main_test_deserialize() {
    let buffer = [
        16, 191, 1, 0, 0, 1, 0, 0, 0, 0, 0, 0, 12, 99, 111, 100, 101, 99, 114, 97, 102, 116,
        101, 114, 115, 2, 105, 111, 0, 0, 1, 0, 1,
    ];

    let msg = deserialize(&buffer).unwrap();

    let expected_msg = DnsMsg {
        header: DnsHeader {
            id: 4287,
            query: QR::Query,
            op_code: OpCode::StandardQuery,
            aa: false,
            tc: false,
            rd: true,
            ra: false,
            z: 0,
            response_code: ResponseCode::NoError,
            questions_count: 1,
            answers_count: 0,
            authority_count: 0,
            additional_count: 0,
        },
        questions: vec![question("codecrafters.io")],
        answers: vec![],
        authority: vec![],
        additional: vec![],
    };

    assert_eq!(msg, expected_msg);
}

// A name that is nothing but a pointer decodes to the same name as the
// name it points at.
#[test]
fn compressed_name_decodes_to_pointer_target() {
    let buf = [
        3, 97, 98, 99, 0, 0, 1, 0, 1, // "abc", type A, class IN
        192, 0, 0, 1, 0, 1, // pointer to offset 0, type A, class IN
    ];
    let (first, end1) = deserialize_record(&buf, 1, false).unwrap();
    assert_eq!("abc", first.name);
    assert_eq!(9, end1);
    let (second, end2) = deserialize_record(&buf, 10, false).unwrap();
    assert_eq!(first.name, second.name);
    assert_eq!(15, end2);
}

#[test]
fn short_buffer_is_malformed_header() {
    assert_eq!(Err(DnsError::MalformedHeader), deserialize(&[1, 2, 3]));
    assert_eq!(Err(DnsError::MalformedHeader), deserialize(&[]));
}

#[test]
fn truncated_record_is_malformed() {
    // header claims one question but the name never terminates
    let buffer = [16, 191, 1, 0, 0, 1, 0, 0, 0, 0, 0, 0, 12, 99, 111];
    assert_eq!(Err(DnsError::MalformedRecord), deserialize(&buffer));

    // header claims a question that is not there at all
    let buffer = [16, 191, 1, 0, 0, 1, 0, 0, 0, 0, 0, 0];
    assert_eq!(Err(DnsError::MalformedRecord), deserialize(&buffer));
}

#[test]
fn forward_pointer_is_rejected() {
    // the pointer at offset 0 points at itself: not a back-reference
    let buf = [192, 0, 0, 1, 0, 1];
    assert!(deserialize_record(&buf, 1, false).is_err());
    // pointing forwards is rejected too
    let buf = [192, 4, 0, 0, 3, 97, 98, 99, 0, 0, 1, 0, 1];
    assert!(deserialize_record(&buf, 1, false).is_err());
}

#[test]
fn pointer_loop_terminates_with_error() {
    // the label at offset 2 runs into a pointer at offset 5 that jumps
    // back to offset 2, forever; the decoder's bound must cut it off
    let buf = [0, 0, 2, 97, 98, 192, 2, 0, 1, 0, 1];
    assert!(deserialize_record(&buf, 3, false).is_err());
}

#[test]
fn length_byte_with_one_high_bit_is_malformed() {
    // 0x80 is neither a pointer marker (0xC0) nor a valid label length
    let buf = [128, 0, 0, 1, 0, 1];
    assert!(deserialize_record(&buf, 1, false).is_err());
}

// A response whose answer names the question by a compression pointer and
// carries a time to live and payload decodes in full.
#[test]
fn response_with_compressed_answer_deserializes() {
    let buffer = [
        16, 191, 129, 0, 0, 1, 0, 1, 0, 0, 0, 0, // header: response, qd=1, an=1
        12, 99, 111, 100, 101, 99, 114, 97, 102, 116, 101, 114, 115, 2, 105, 111, 0, 0, 1, 0,
        1, // question codecrafters.io A IN
        192, 12, 0, 1, 0, 1, 0, 0, 1, 44, 0, 4, 93, 184, 216, 34, // answer via pointer
    ];
    let msg = deserialize(&buffer).unwrap();
    assert_eq!(QR::Response, msg.header.query);
    assert_eq!(1, msg.header.answers_count);
    assert_eq!(1, msg.answers.len());
    let answer = &msg.answers[0];
    assert_eq!("codecrafters.io", answer.name);
    assert_eq!(DnsType::A, answer.dns_type);
    assert_eq!(DnsClass::IN, answer.dns_class);
    assert_eq!(300, answer.time_to_live);
    assert_eq!(4, answer.rd_length);
    assert_eq!(vec![93, 184, 216, 34], answer.rd_data);
}
