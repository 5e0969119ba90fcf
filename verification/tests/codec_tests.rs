use dns_proxy::dns_header::DnsHeader;
use dns_proxy::dns_header::OpCode;
use dns_proxy::dns_header::QR;
use dns_proxy::dns_header::ResponseCode;
use dns_proxy::dns_header::deserialize_header;
use dns_proxy::dns_header::serialize_header;
use dns_proxy::dns_record::DnsClass;
use dns_proxy::dns_record::DnsRecord;
use dns_proxy::dns_record::DnsType;
use dns_proxy::dns_record::deserialize_record;
use dns_proxy::dns_record::record_sendable;
use dns_proxy::dns_record::serialize_record;
use dns_proxy::utils::bytes_to_i32;
use dns_proxy::utils::double_u8_to_u16;

#[test]
fn test_serialize_deserialize() {
    let msg = DnsHeader {
        id: 1234,
        query: QR::Response,
        op_code: OpCode::StandardQuery,
        aa: false,
        tc: false,
        rd: false,
        ra: false,
        z: 0,
        response_code: ResponseCode::NoError,
        questions_count: 0,
        answers_count: 0,
        authority_count: 0,
        additional_count: 0,
    };
    let my_res = serialize_header(&msg);

    let recv_msg = deserialize_header(&my_res);

    let response: [u8; 12] = [0x04, 0xd2, 0x80, 0, 0, 0, 0, 0, 0, 0, 0, 0];
    assert_eq!(response.to_vec(), my_res);

    assert_eq!(msg, recv_msg);

    let msg = DnsHeader {
        id: 1334,
        query: QR::Response,
        op_code: OpCode::StandardQuery,
        aa: false,
        tc: true,
        rd: false,
        ra: false,
        z: 0,
        response_code: ResponseCode::FormatError,
        questions_count: 2,
        answers_count: 1,
        authority_count: 1,
        additional_count: 1,
    };

    let my_res = serialize_header(&msg);

    println!("res: {my_res:?}");

    let recv_msg = deserialize_header(&my_res);

    assert_eq!(msg, recv_msg);
}

// Header round trip on a header with every bit-field at its widest.
#[test]
fn header_round_trip_all_fields_set() {
    let msg = DnsHeader {
        id: 65535,
        query: QR::Response,
        op_code: OpCode::ServerStatus,
        aa: true,
        tc: true,
        rd: true,
        ra: true,
        z: 7,
        response_code: ResponseCode::Refused,
        questions_count: 65535,
        answers_count: 1,
        authority_count: 256,
        additional_count: 257,
    };
    let bytes = serialize_header(&msg);
    assert_eq!(12, bytes.len());
    // flag bytes, bit by bit: QR=1 op=2 AA TC RD -> 1001 0111; RA=1 z=7 rc=5
    assert_eq!(0b1001_0111, bytes[2]);
    assert_eq!(0b1111_0101, bytes[3]);
    assert_eq!(msg, deserialize_header(&bytes));

    let msg = DnsHeader {
        id: 4287,
        query: QR::Query,
        op_code: OpCode::InverseQuery,
        aa: false,
        tc: false,
        rd: true,
        ra: false,
        z: 5,
        response_code: ResponseCode::NameError,
        questions_count: 1,
        answers_count: 0,
        authority_count: 0,
        additional_count: 0,
    };
    assert_eq!(msg, deserialize_header(&serialize_header(&msg)));
}

#[test]
fn unknown_codes_fall_back() {
    assert_eq!(OpCode::NotImplemented, OpCode::from_code(9));
    assert_eq!(ResponseCode::NotImplemented, ResponseCode::from_code(9));
    assert_eq!(DnsType::Unrecognized(17), DnsType::from_code(17));
    assert_eq!(DnsClass::Unrecognized(5), DnsClass::from_code(5));

    // an opcode of 9 on the wire deserializes as the fallback variant
    let bytes = [0u8, 1, 9 << 3, 0, 0, 0, 0, 0, 0, 0, 0, 0];
    let header = deserialize_header(&bytes);
    assert_eq!(OpCode::NotImplemented, header.op_code);
}

#[test]
fn known_codes_round_trip() {
    for code in (1u16..=16).chain(252u16..=255) {
        assert_eq!(code, DnsType::from_code(code).to_code());
    }
    for code in (1u16..=4).chain(255u16..=255) {
        assert_eq!(code, DnsClass::from_code(code).to_code());
    }
}

#[test]
fn dns_record_test_deserialize() {
    let response = [
        12, 99, 111, 100, 101, 99, 114, 97, 102, 116, 101, 114, 115, 2, 105, 111, 0, 0, 1, 0, 1,
    ];
    let (record, _) = deserialize_record(&response, 1, false).unwrap();

    assert_eq!("codecrafters.io".to_string(), record.name);
    assert_eq!(DnsType::A, record.dns_type);
    assert_eq!(DnsClass::IN, record.dns_class);
    println!("record: {record:?}");
}

#[test]
fn dns_record_test_serialize() {
    let response = [
        12, 99, 111, 100, 101, 99, 114, 97, 102, 116, 101, 114, 115, 2, 105, 111, 0, 0, 1, 0, 1,
    ]
    .to_vec();

    let record = DnsRecord {
        name: "codecrafters.io".to_string(),
        dns_type: DnsType::A,
        dns_class: DnsClass::IN,
        rd_data: Vec::new(),
        rd_length: 0,
        time_to_live: 0,
    };

    let result = serialize_record(&record, false);

    assert_eq!(result, response);
}

// A record that carries a time to live and a payload survives a
// serialize/deserialize round trip.
#[test]
fn record_with_rdata_round_trips() {
    let record = DnsRecord {
        name: "codecrafters.io".to_string(),
        dns_type: DnsType::A,
        dns_class: DnsClass::IN,
        time_to_live: 300,
        rd_length: 4,
        rd_data: vec![93, 184, 216, 34],
    };
    let bytes = serialize_record(&record, true);
    let (back, end) = deserialize_record(&bytes, 1, true).unwrap();
    assert_eq!(record, back);
    assert_eq!(bytes.len(), end);
}

#[test]
fn oversized_label_is_rejected_before_sending() {
    let long_label = "a".repeat(64);
    let record = DnsRecord {
        name: format!("{long_label}.example"),
        dns_type: DnsType::A,
        dns_class: DnsClass::IN,
        time_to_live: 0,
        rd_length: 0,
        rd_data: Vec::new(),
    };
    assert!(!record_sendable(&record));

    let just_fits = "a".repeat(63);
    let record = DnsRecord {
        name: format!("{just_fits}.example"),
        dns_type: DnsType::A,
        dns_class: DnsClass::IN,
        time_to_live: 0,
        rd_length: 0,
        rd_data: Vec::new(),
    };
    assert!(record_sendable(&record));

    // a declared payload length that does not match is just as unsendable
    let record = DnsRecord {
        name: "example".to_string(),
        dns_type: DnsType::A,
        dns_class: DnsClass::IN,
        time_to_live: 0,
        rd_length: 2,
        rd_data: vec![1, 2, 3],
    };
    assert!(!record_sendable(&record));
}

// An answer whose time to live is zero still carries its TTL and length
// fields on the wire and survives the round trip.
#[test]
fn zero_ttl_answer_round_trips() {
    let record = DnsRecord {
        name: "codecrafters.io".to_string(),
        dns_type: DnsType::A,
        dns_class: DnsClass::IN,
        time_to_live: 0,
        rd_length: 4,
        rd_data: vec![127, 0, 0, 1],
    };
    let bytes = serialize_record(&record, true);
    // name (16) + root (1) + type (2) + class (2) + ttl (4) + len (2) + data (4)
    assert_eq!(31, bytes.len());
    let (back, end) = deserialize_record(&bytes, 1, true).unwrap();
    assert_eq!(record, back);
    assert_eq!(bytes.len(), end);
}

// A name in non-ASCII UTF-8 decodes and re-serializes byte for byte.
#[test]
fn utf8_name_round_trips() {
    // "bücher" in UTF-8, then "example"
    let wire = [
        7, 98, 0xc3, 0xbc, 99, 104, 101, 114, 7, 101, 120, 97, 109, 112, 108, 101, 0, 0, 1, 0, 1,
    ];
    let (record, end) = deserialize_record(&wire, 1, false).unwrap();
    assert_eq!("b\u{fc}cher.example", record.name);
    assert_eq!(wire.len(), end);
    assert!(record_sendable(&record));
    assert_eq!(wire.to_vec(), serialize_record(&record, false));
}

// Label bytes that are not valid UTF-8 cannot become a textual name.
#[test]
fn invalid_utf8_name_is_malformed() {
    let wire = [2, 0xff, 0xfe, 0, 0, 1, 0, 1];
    assert!(deserialize_record(&wire, 1, false).is_err());
}

// An empty label cannot be framed again, so it cannot be sent.
#[test]
fn empty_label_is_not_sendable() {
    let record = DnsRecord {
        name: "a..b".to_string(),
        dns_type: DnsType::A,
        dns_class: DnsClass::IN,
        time_to_live: 0,
        rd_length: 0,
        rd_data: Vec::new(),
    };
    assert!(!record_sendable(&record));
}

#[test]
fn big_endian_reads() {
    let bytes = [0x12u8, 0x34, 0x56, 0x78, 0xff];
    assert_eq!(0x1234, double_u8_to_u16(&bytes, 0));
    assert_eq!(0x3456, double_u8_to_u16(&bytes, 1));
    assert_eq!(0x12345678, bytes_to_i32(&bytes, 0));
    let all_ones = [0xffu8, 0xff, 0xff, 0xff];
    assert_eq!(-1, bytes_to_i32(&all_ones, 0));
}
