use dns::buffer::{DnsBuffer, DnsError};
use dns::packet::{
    DnsHeader, DnsPacket, DnsQuestion, DnsRecord, DnsRecordBody, DnsRecordPreamble, RecordClass,
    RecordType, ResponseCode,
};

fn load(bytes: &[u8]) -> DnsBuffer {
    let mut buf = DnsBuffer::new();
    buf.buf[..bytes.len()].copy_from_slice(bytes);
    buf
}

fn name(labels: &[&str]) -> Vec<u8> {
    let mut v = Vec::new();
    for l in labels {
        v.push(l.len() as u8);
        v.extend_from_slice(l.as_bytes());
    }
    v.push(0);
    v
}

/// The response of an upstream server for the A records of google.com, id 29600: one
/// answer whose name points back to the question.
fn google_response() -> Vec<u8> {
    let mut v = vec![0x73, 0xA0, 0x81, 0x80, 0x00, 0x01, 0x00, 0x01, 0x00, 0x00, 0x00, 0x00];
    v.extend(name(&["google", "com"]));
    v.extend_from_slice(&[0x00, 0x01, 0x00, 0x01]);
    v.extend_from_slice(&[0xC0, 12, 0x00, 0x01, 0x00, 0x01, 0x00, 0x00, 0x00, 64, 0x00, 0x04]);
    v.extend_from_slice(&[172, 217, 14, 238]);
    v
}

/// The response for www.yahoo.com, id 49323: a CNAME, compressed against the question, and
/// four A records whose names point at the CNAME's data.
fn yahoo_response() -> Vec<u8> {
    let mut v = vec![0xC0, 0xAB, 0x81, 0x80, 0x00, 0x01, 0x00, 0x05, 0x00, 0x00, 0x00, 0x00];
    v.extend(name(&["www", "yahoo", "com"]));
    v.extend_from_slice(&[0x00, 0x01, 0x00, 0x01]);
    assert_eq!(v.len(), 31);
    v.extend_from_slice(&[0xC0, 12, 0x00, 0x05, 0x00, 0x01, 0x00, 0x00, 0x03, 0x59, 0x00, 22]);
    assert_eq!(v.len(), 43);
    let mut target = Vec::new();
    for l in ["atsv2-fp-shed", "wg1", "b"] {
        target.push(l.len() as u8);
        target.extend_from_slice(l.as_bytes());
    }
    target.extend_from_slice(&[0xC0, 16]);
    assert_eq!(target.len(), 22);
    v.extend(target);
    for addr in [[3, 89, 0, 22], [72, 30, 35, 10], [98, 138, 219, 232], [98, 138, 219, 231]] {
        v.extend_from_slice(&[0xC0, 43, 0x00, 0x01, 0x00, 0x01, 0x00, 0x00, 0x00, 0x05, 0x00, 0x04]);
        v.extend_from_slice(&addr);
    }
    v
}

fn assert_header(header: &DnsHeader) {
    assert_eq!(header.id, 29600);
    assert_eq!(header.query_response, true);
    assert_eq!(header.opcode, 0);
    assert_eq!(header.authoritative_answer, false);
    assert_eq!(header.truncated_message, false);
    assert_eq!(header.recursion_desired, true);
    assert_eq!(header.recursion_available, true);
    assert_eq!(header.z, 0);
    assert_eq!(header.response_code, ResponseCode::NOERROR);
    assert_eq!(header.question_count, 1);
    assert_eq!(header.answer_count, 1);
    assert_eq!(header.nameserver_count, 0);
    assert_eq!(header.additional_count, 0);
}

#[test]
fn packet_test_bit_shift() {
    assert_eq!(0x80 >> 4, 0x8);
    assert_eq!(0x70 >> 2, 0x1C);
}

#[test]
fn test_parse() {
    let mut buf = load(&google_response());

    let mut header = DnsHeader::new();
    header.read(&mut buf).unwrap();

    assert_header(&header);
    assert_eq!(buf.pos, 12);

    for _ in 0..header.question_count {
        let mut question = DnsQuestion::new();
        question.read(&mut buf).unwrap();

        assert_eq!(question.name, "google.com");
        assert_eq!(question.record_type, RecordType::A);
        assert_eq!(question.record_class, RecordClass::IN);
    }
    assert_eq!(buf.pos, 28);

    for _ in 0..header.answer_count {
        let mut answer = DnsRecord::new();
        answer.read(&mut buf).unwrap();

        assert_eq!(answer.preamble.name, "google.com");
        assert_eq!(answer.preamble.record_type, RecordType::A);
        assert_eq!(answer.preamble.record_class, RecordClass::IN);
        assert_eq!(answer.preamble.ttl, 64);
        assert_eq!(answer.preamble.length, 4);
        match answer.body {
            DnsRecordBody::A { address } => {
                assert_eq!(address, [172, 217, 14, 238]);
            }
            _ => {
                panic!("The A record should have an ip address");
            }
        }
    }
}

#[test]
fn test_parse_packet() {
    let mut buf = load(&google_response());

    let mut packet = DnsPacket::new();
    packet.read(&mut buf).unwrap();

    assert_eq!(packet.header.question_count, 1);
    assert_eq!(packet.questions[0].name, "google.com");
    assert_eq!(packet.questions[0].record_type, RecordType::A);
    assert_eq!(packet.questions[0].record_class, RecordClass::IN);

    assert_eq!(packet.answers[0].preamble.name, "google.com");
    assert_eq!(packet.answers[0].preamble.record_type, RecordType::A);
    assert_eq!(packet.answers[0].preamble.record_class, RecordClass::IN);
    assert_eq!(packet.answers[0].preamble.ttl, 64);
    assert_eq!(packet.answers[0].preamble.length, 4);
    match packet.answers[0].body {
        DnsRecordBody::A { address } => {
            assert_eq!(address, [172, 217, 14, 238]);
        }
        _ => {
            panic!("The A record should be a CNAME");
        }
    }

    assert_eq!(packet.header.nameserver_count, 0);
    assert_eq!(packet.header.additional_count, 0);
}

#[test]
fn test_parse_yahoo() {
    let mut buf = load(&yahoo_response());

    let mut packet = DnsPacket::new();
    packet.read(&mut buf).unwrap();
    assert_eq!(packet.header.id, 49323);
    assert_eq!(packet.header.query_response, true);
    assert_eq!(packet.header.opcode, 0);
    assert_eq!(packet.header.authoritative_answer, false);
    assert_eq!(packet.header.truncated_message, false);
    assert_eq!(packet.header.recursion_desired, true);
    assert_eq!(packet.header.recursion_available, true);
    assert_eq!(packet.header.z, 0);
    assert_eq!(packet.header.response_code, ResponseCode::NOERROR);
    assert_eq!(packet.header.question_count, 1);
    assert_eq!(packet.header.answer_count, 5);
    assert_eq!(packet.header.nameserver_count, 0);
    assert_eq!(packet.header.additional_count, 0);

    assert_eq!(packet.header.question_count, 1);
    assert_eq!(packet.questions[0].name, "www.yahoo.com");
    assert_eq!(packet.questions[0].record_type, RecordType::A);
    assert_eq!(packet.questions[0].record_class, RecordClass::IN);

    let mut seen_cname = false;
    for i in 0..packet.header.answer_count {
        let idx = i as usize;
        match &packet.answers[idx].body {
            DnsRecordBody::CNAME { name } => {
                seen_cname = true;
                assert_eq!(packet.answers[idx].preamble.name, "www.yahoo.com");
                assert_eq!(packet.answers[idx].preamble.record_type, RecordType::CNAME);
                assert_eq!(packet.answers[idx].preamble.record_class, RecordClass::IN);
                assert_eq!(packet.answers[idx].preamble.ttl, 857);
                assert_eq!(packet.answers[idx].preamble.length, 22);
                assert_eq!(name, "atsv2-fp-shed.wg1.b.yahoo.com");
            }
            DnsRecordBody::A { address } => {
                let valid_addrs = vec![
                    [3, 89, 0, 22],
                    [72, 30, 35, 10],
                    [98, 138, 219, 232],
                    [98, 138, 219, 231],
                    [72, 30, 35, 9],
                ];
                assert!(valid_addrs.contains(address));
                assert_eq!(packet.answers[idx].preamble.name, "atsv2-fp-shed.wg1.b.yahoo.com");
            }
            _ => {
                panic!("There should be no unknown records: {:?}", packet.answers[idx]);
            }
        }
    }
    assert!(seen_cname);

    assert_eq!(packet.header.nameserver_count, 0);
    assert_eq!(packet.header.additional_count, 0);
}

#[test]
fn test_write_packet() {
    let packet = DnsPacket::from_query(&String::from("google.com")).unwrap();
    assert!(packet.header.recursion_desired);
    let mut buf = DnsBuffer::new();
    packet.write(&mut buf).unwrap();

    // Reset the buffer to 0 in order for it to be read again
    buf.pos = 0;

    let mut new_packet = DnsPacket::new();
    new_packet.read(&mut buf).unwrap();

    assert_eq!(new_packet.header.id, 0);
    assert_eq!(new_packet.header.query_response, false);
    assert_eq!(new_packet.header.opcode, 0);
    assert_eq!(new_packet.header.authoritative_answer, false);
    assert_eq!(new_packet.header.truncated_message, false);
    assert_eq!(new_packet.header.recursion_desired, true);
    assert_eq!(new_packet.header.recursion_available, false);
    assert_eq!(new_packet.header.z, 0);
    assert_eq!(new_packet.header.response_code, ResponseCode::NOERROR);
    assert_eq!(new_packet.header.question_count, 1);
    assert_eq!(new_packet.header.answer_count, 0);
    assert_eq!(new_packet.header.nameserver_count, 0);
    assert_eq!(new_packet.header.additional_count, 0);

    assert_eq!(new_packet.questions[0].name, "google.com");
    assert_eq!(new_packet.questions[0].record_type, RecordType::A);
    assert_eq!(new_packet.questions[0].record_class, RecordClass::IN);
}

#[test]
fn header_round_trip_scenario() {
    let mut header = DnsHeader::new();
    header.id = 29600;
    header.query_response = true;
    header.recursion_desired = true;
    header.recursion_available = true;
    header.question_count = 1;
    header.answer_count = 1;
    let mut buf = DnsBuffer::new();
    header.write(&mut buf).unwrap();
    assert_eq!(buf.pos, 12);
    assert_eq!(&buf.buf[..12], &[0x73, 0xA0, 0x81, 0x80, 0, 1, 0, 1, 0, 0, 0, 0]);
    buf.pos = 0;
    let mut back = DnsHeader::new();
    back.read(&mut buf).unwrap();
    assert_eq!(back, header);
    assert_header(&back);
}

#[test]
fn header_flags_pack_into_their_bits() {
    let mut header = DnsHeader::new();
    header.opcode = 0x0F;
    header.authoritative_answer = true;
    header.truncated_message = true;
    header.z = 0x07;
    header.response_code = ResponseCode::NOTIMP;
    let mut buf = DnsBuffer::new();
    header.write(&mut buf).unwrap();
    assert_eq!(buf.buf[2], 0x7E);
    assert_eq!(buf.buf[3], 0x74);
    buf.pos = 0;
    let mut back = DnsHeader::new();
    back.read(&mut buf).unwrap();
    assert_eq!(back, header);

    // bits past an opcode's four and a reserved field's three are not written
    header.opcode = 0x1F;
    header.z = 0x0F;
    let mut buf = DnsBuffer::new();
    header.write(&mut buf).unwrap();
    assert_eq!(buf.buf[2], 0x7E);
    assert_eq!(buf.buf[3], 0x74);
}

#[test]
fn header_needs_twelve_bytes() {
    let mut buf = DnsBuffer::new();
    buf.pos = 501;
    let mut header = DnsHeader::new();
    header.id = 5;
    assert_eq!(header.read(&mut buf), Err(DnsError::OutOfBounds));
    assert_eq!(buf.pos, 501);
    assert_eq!(header.id, 5);
    buf.pos = 500;
    assert_eq!(header.read(&mut buf), Ok(()));
    assert_eq!(buf.pos, 512);
}

#[test]
fn numeric_codes() {
    assert_eq!(RecordType::from_num(1), RecordType::A);
    assert_eq!(RecordType::from_num(2), RecordType::NS);
    assert_eq!(RecordType::from_num(5), RecordType::CNAME);
    assert_eq!(RecordType::from_num(15), RecordType::UNKNOWN);
    assert_eq!(RecordType::from_num(28).to_num(), 0);
    for t in [RecordType::UNKNOWN, RecordType::A, RecordType::NS, RecordType::CNAME] {
        assert_eq!(RecordType::from_num(t.to_num()), t);
    }
    assert_eq!(RecordType::CNAME.to_num(), 5);
    assert_eq!(RecordType::UNKNOWN.to_num(), 0);
    assert_eq!(RecordClass::from_num(1), RecordClass::IN);
    assert_eq!(RecordClass::from_num(15), RecordClass::UNKNOWN);
    assert_eq!(RecordClass::IN.to_num(), 1);
    assert_eq!(ResponseCode::from_num(3), ResponseCode::NXDOMAIN);
    assert_eq!(ResponseCode::from_num(9), ResponseCode::NOERROR);
    assert_eq!(ResponseCode::SERVFAIL.to_num(), 2);
    for n in 0..5u8 {
        assert_eq!(ResponseCode::from_num(n).to_num(), n);
    }
}

#[test]
fn unknown_type_data_is_skipped() {
    let mut v = vec![];
    v.extend(name(&["example", "org"]));
    // type 99, class IN, ttl 300, seven bytes of data
    v.extend_from_slice(&[0x00, 99, 0x00, 0x01, 0x00, 0x00, 0x01, 0x2C, 0x00, 0x07]);
    let rdata = v.len();
    v.extend_from_slice(&[1, 2, 3, 4, 5, 6, 7]);
    v.extend_from_slice(&[0xC0, 0, 0x00, 0x01, 0x00, 0x01, 0x00, 0x00, 0x00, 0x10, 0x00, 0x04]);
    v.extend_from_slice(&[10, 0, 0, 1]);
    let mut buf = load(&v);

    let mut first = DnsRecord::new();
    first.read(&mut buf).unwrap();
    assert_eq!(first.preamble.record_type, RecordType::UNKNOWN);
    assert_eq!(first.preamble.length, 7);
    assert!(matches!(first.body, DnsRecordBody::UNKNOWN { record_type: 99 }));
    assert_eq!(buf.pos, rdata + 7);

    let mut second = DnsRecord::new();
    second.read(&mut buf).unwrap();
    assert_eq!(second.preamble.name, "example.org");
    assert_eq!(second.preamble.ttl, 16);
    assert!(matches!(second.body, DnsRecordBody::A { address: [10, 0, 0, 1] }));
    assert_eq!(buf.pos, v.len());
}

#[test]
fn ns_record_reads_a_name() {
    let mut v = name(&["org"]);
    v.extend_from_slice(&[0x00, 0x02, 0x00, 0x01, 0x00, 0x00, 0x0E, 0x10, 0x00, 0x06]);
    v.extend(name(&["ns1"]));
    v.truncate(v.len() - 1);
    v.extend_from_slice(&[0xC0, 0]);
    let mut buf = load(&v);
    let mut rec = DnsRecord::new();
    rec.read(&mut buf).unwrap();
    assert_eq!(rec.preamble.record_type, RecordType::NS);
    match &rec.body {
        DnsRecordBody::NS { name } => assert_eq!(name, "ns1.org"),
        _ => panic!("an NS record holds a name"),
    }
    assert_eq!(buf.pos, v.len());
}

#[test]
fn unknown_data_past_the_end_is_out_of_bounds() {
    let mut buf = DnsBuffer::new();
    buf.pos = 500;
    assert!(matches!(
        DnsRecordBody::read(28, 13, &mut buf),
        Err(DnsError::OutOfBounds)
    ));
    assert_eq!(buf.pos, 500);
    assert!(matches!(
        DnsRecordBody::read(28, 12, &mut buf),
        Ok(DnsRecordBody::UNKNOWN { record_type: 28 })
    ));
    assert_eq!(buf.pos, 512);
}

#[test]
fn failed_record_read_leaves_cursor_and_record() {
    let mut v = name(&["a"]);
    v.extend_from_slice(&[0x00, 0x05, 0x00, 0x01, 0x00, 0x00, 0x00, 0x01, 0x00, 0x02]);
    v.extend_from_slice(&[0xFF, 0xFF]);
    let mut buf = load(&v);
    let mut rec = DnsRecord::new();
    assert_eq!(rec.read(&mut buf), Err(DnsError::OutOfBounds));
    assert_eq!(buf.pos, 0);
    assert_eq!(rec.preamble.name, "");
}

fn record(name: &str, body: DnsRecordBody, record_type: RecordType, ttl: u32, length: u16) -> DnsRecord {
    DnsRecord {
        preamble: DnsRecordPreamble {
            name: String::from(name),
            record_type,
            record_class: RecordClass::IN,
            ttl,
            length,
        },
        body,
    }
}

#[test]
fn record_data_length_is_recomputed() {
    let rec = record(
        "www.example.org",
        DnsRecordBody::CNAME { name: String::from("example.org") },
        RecordType::CNAME,
        60,
        0,
    );
    assert_eq!(rec.body.wire_length(), 13);
    let mut buf = DnsBuffer::new();
    rec.write(&mut buf).unwrap();
    // name (17) + type, class, ttl (8), then the length field
    assert_eq!(buf.get_u16(25), Ok(13));
    assert_eq!(buf.pos, 17 + 10 + 13);

    // the preamble on its own writes the length it holds
    let mut buf = DnsBuffer::new();
    rec.preamble.write(&mut buf).unwrap();
    assert_eq!(buf.get_u16(25), Ok(0));
    assert_eq!(buf.pos, 27);
}

#[test]
fn message_round_trip() {
    let mut packet = DnsPacket::new();
    packet.header.id = 4242;
    packet.header.query_response = true;
    packet.header.recursion_available = true;
    packet.header.response_code = ResponseCode::NXDOMAIN;
    packet.questions.push(DnsQuestion {
        name: String::from("www.example.org"),
        record_type: RecordType::CNAME,
        record_class: RecordClass::IN,
    });
    packet.answers.push(record(
        "www.example.org",
        DnsRecordBody::CNAME { name: String::from("example.org") },
        RecordType::CNAME,
        60,
        13,
    ));
    packet.authorities.push(record(
        "example.org",
        DnsRecordBody::NS { name: String::from("ns.example.org") },
        RecordType::NS,
        3600,
        16,
    ));
    packet.additional.push(record(
        "ns.example.org",
        DnsRecordBody::A { address: [192, 0, 2, 53] },
        RecordType::A,
        3600,
        4,
    ));
    packet.additional.push(record("x", DnsRecordBody::UNKNOWN { record_type: 99 }, RecordType::UNKNOWN, 1, 0));
    packet.header.question_count = 1;
    packet.header.answer_count = 1;
    packet.header.nameserver_count = 1;
    packet.header.additional_count = 2;
    assert!(packet.counts_match());

    let mut buf = DnsBuffer::new();
    packet.write(&mut buf).unwrap();
    let end = buf.pos;
    buf.pos = 0;
    let mut back = DnsPacket::new();
    back.read(&mut buf).unwrap();
    assert_eq!(buf.pos, end);
    assert_eq!(back.header, packet.header);
    assert_eq!(back.questions.len(), 1);
    assert_eq!(back.questions[0].name, "www.example.org");
    assert_eq!(back.questions[0].record_type, RecordType::CNAME);
    let sections = [
        (&back.answers, &packet.answers),
        (&back.authorities, &packet.authorities),
        (&back.additional, &packet.additional),
    ];
    for (got, want) in sections {
        assert_eq!(got.len(), want.len());
        for (g, w) in got.iter().zip(want.iter()) {
            assert_eq!(g.preamble, w.preamble);
            assert_eq!(g.body, w.body);
        }
    }
}

#[test]
fn message_that_does_not_fit_is_out_of_bounds() {
    let mut packet = DnsPacket::new();
    for i in 0..40 {
        packet.questions.push(DnsQuestion {
            name: format!("host{}.example.org", i),
            record_type: RecordType::A,
            record_class: RecordClass::IN,
        });
    }
    packet.header.question_count = 40;
    let mut buf = DnsBuffer::new();
    assert_eq!(packet.write(&mut buf), Err(DnsError::OutOfBounds));
    assert_eq!(buf.pos, 512);
}

#[test]
fn message_with_bad_label_is_refused() {
    let mut packet = DnsPacket::from_query(&format!("{}.org", "x".repeat(70))).unwrap();
    packet.header.id = 1;
    let mut buf = DnsBuffer::new();
    assert_eq!(packet.write(&mut buf), Err(DnsError::LabelFormat));
    // the header went out before the name was refused
    assert_eq!(buf.pos, 12);
}

#[test]
fn query_builders() {
    let packet = DnsPacket::from_query_type(&String::from("example.org"), RecordType::NS);
    assert_eq!(packet.header, {
        let mut h = DnsHeader::new();
        h.recursion_desired = true;
        h.question_count = 1;
        h
    });
    assert_eq!(packet.questions.len(), 1);
    assert_eq!(packet.questions[0].record_type, RecordType::NS);
    assert_eq!(packet.questions[0].record_class, RecordClass::IN);
    assert!(packet.answers.is_empty() && packet.authorities.is_empty() && packet.additional.is_empty());
    let q = DnsQuestion::new();
    assert_eq!(q.name, "");
    assert_eq!(q.record_type, RecordType::UNKNOWN);
    let p = DnsRecordPreamble::new();
    assert_eq!((p.ttl, p.length), (0, 0));
}

#[test]
fn truncated_message_fails_to_read() {
    let mut v = google_response();
    // the answer count claims a second answer, which is all zero bytes: the root name,
    // type and class 0, and a zero length
    v[7] = 2;
    let mut buf = load(&v);
    let mut packet = DnsPacket::new();
    packet.read(&mut buf).unwrap();
    assert_eq!(packet.answers.len(), 2);
    assert_eq!(packet.answers[1].preamble.name, "");

    let mut buf = load(&v);
    // the second answer's name points past the buffer
    buf.buf[44] = 0xFF;
    buf.buf[45] = 0xFF;
    let mut packet = DnsPacket::new();
    packet.header.id = 77;
    assert_eq!(packet.read(&mut buf), Err(DnsError::OutOfBounds));
    assert_eq!(buf.pos, 0);
    assert_eq!(packet.header.id, 77);
}

#[test]
fn unknown_type_number_survives_rewriting() {
    let mut v = name(&["mail", "example", "org"]);
    // an MX record, a type without a shape here: type 15, three bytes of data
    v.extend_from_slice(&[0x00, 15, 0x00, 0x01, 0x00, 0x00, 0x00, 0x3C, 0x00, 0x03, 7, 8, 9]);
    let mut buf = load(&v);
    let mut rec = DnsRecord::new();
    rec.read(&mut buf).unwrap();
    assert_eq!(rec.preamble.record_type, RecordType::UNKNOWN);
    assert!(matches!(rec.body, DnsRecordBody::UNKNOWN { record_type: 15 }));
    assert_eq!(buf.pos, v.len());

    let mut out = DnsBuffer::new();
    rec.write(&mut out).unwrap();
    // written under the number the data keeps
    assert_eq!(out.get_u16(18), Ok(15));
    out.pos = 0;
    let mut back = DnsRecord::new();
    back.read(&mut out).unwrap();
    assert_eq!(back.preamble.record_type, RecordType::UNKNOWN);
    // the data is not kept, so none is written
    assert_eq!(back.preamble.length, 0);
    assert!(matches!(back.body, DnsRecordBody::UNKNOWN { record_type: 15 }));
}

#[test]
fn question_type_round_trip() {
    for t in [RecordType::UNKNOWN, RecordType::A, RecordType::NS, RecordType::CNAME] {
        let q = DnsQuestion { name: String::from("google.com"), record_type: t, record_class: RecordClass::IN };
        let mut buf = DnsBuffer::new();
        buf.pos = 20;
        q.write(&mut buf).unwrap();
        assert_eq!(buf.pos, 20 + "google.com".len() + 6);
        buf.pos = 20;
        let mut back = DnsQuestion::new();
        back.read(&mut buf).unwrap();
        assert_eq!(back, q);
    }
}

#[test]
fn body_read_dispatches_on_type_number() {
    let mut buf = DnsBuffer::new();
    buf.buf[..4].copy_from_slice(&[192, 0, 2, 1]);
    assert!(matches!(DnsRecordBody::read(1, 4, &mut buf), Ok(DnsRecordBody::A { address: [192, 0, 2, 1] })));
    assert_eq!(buf.pos, 4);
}
