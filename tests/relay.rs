use dns::buffer::DnsBuffer;
use dns::packet::{DnsPacket, RecordClass, RecordType, ResponseCode};
use dns::relay::{finish_response, formerr_response, on_query, Exchange};

fn load(bytes: &[u8]) -> DnsBuffer {
    let mut buf = DnsBuffer::new();
    buf.buf[..bytes.len()].copy_from_slice(bytes);
    buf
}

#[test]
fn query_without_questions_gets_formerr() {
    let mut buf = load(&[0x12, 0x34, 0x01, 0x00, 0, 0, 0, 0, 0, 0, 0, 0]);
    match on_query(&mut buf) {
        Exchange::Reply(response) => {
            assert_eq!(response.header.response_code, ResponseCode::FORMERR);
            assert_eq!(response.header.id, 0x1234);
            assert!(response.header.query_response);
            assert!(response.header.recursion_available);
            assert!(response.header.recursion_desired);
            assert_eq!(response.header.question_count, 0);
            assert!(response.questions.is_empty());
            assert!(response.counts_match());
        }
        Exchange::Forward { .. } => panic!("nothing to forward"),
    }
}

#[test]
fn undecodable_query_gets_formerr() {
    // one question whose name points past the buffer
    let mut buf = load(&[0xAB, 0xCD, 0x01, 0x00, 0, 1, 0, 0, 0, 0, 0, 0, 0xFF, 0xFF, 0, 1, 0, 1]);
    match on_query(&mut buf) {
        Exchange::Reply(response) => {
            assert_eq!(response.header.response_code, ResponseCode::FORMERR);
            assert_eq!(response.header.id, 0xABCD);
        }
        Exchange::Forward { .. } => panic!("nothing to forward"),
    }
}

#[test]
fn query_is_forwarded_with_its_first_question() {
    let mut v = vec![0x55, 0x66, 0x01, 0x00, 0, 2, 0, 0, 0, 0, 0, 0];
    v.extend_from_slice(&[7, b'e', b'x', b'a', b'm', b'p', b'l', b'e', 3, b'o', b'r', b'g', 0, 0, 2, 0, 1]);
    v.extend_from_slice(&[0xC0, 12, 0, 1, 0, 1]);
    let mut buf = load(&v);
    buf.pos = 300;
    match on_query(&mut buf) {
        Exchange::Forward { id, query } => {
            assert_eq!(id, 0x5566);
            assert_eq!(query.header.id, 0x5566);
            assert!(query.header.recursion_desired);
            assert!(!query.header.query_response);
            assert_eq!(query.header.question_count, 1);
            assert_eq!(query.questions.len(), 1);
            assert_eq!(query.questions[0].name, "example.org");
            assert_eq!(query.questions[0].record_type, RecordType::NS);
            assert_eq!(query.questions[0].record_class, RecordClass::IN);
            assert!(query.counts_match());
        }
        Exchange::Reply(_) => panic!("the query asks something"),
    }
}

#[test]
fn finished_response_carries_client_id() {
    let mut upstream = DnsPacket::from_query(&String::from("example.org")).unwrap();
    upstream.header.id = 1;
    let response = finish_response(upstream, 0x0BAD);
    assert_eq!(response.header.id, 0x0BAD);
    assert!(response.header.query_response);
    assert!(response.header.recursion_available);
    assert!(response.header.recursion_desired);
    assert_eq!(response.questions.len(), 1);

    let formerr = formerr_response(9);
    assert_eq!(formerr.header.id, 9);
    assert_eq!(formerr.header.response_code, ResponseCode::FORMERR);
    let mut buf = DnsBuffer::new();
    formerr.write(&mut buf).unwrap();
    assert_eq!(&buf.buf[..4], &[0, 9, 0x81, 0x81]);
}
