use vstd::prelude::*;
use vstd::utf8::encode_utf8;

use crate::buffer::{DnsError, CAPACITY};
use crate::name::{
    is_host_name, label_emission, label_wire, lemma_host_labels_fit, lemma_label_wire_len, lemma_name_text,
    lemma_walk_wire, parse_name,
};
use crate::packet::{
    body_emission, body_length, flags_hi, flags_lo, header_at, header_wire, length_field, packet_emission,
    parse_header, parse_packet, parse_preamble, parse_question, parse_questions, parse_record,
    parse_records, question_emission, questions_emission, record_emission, records_emission, written_type,
    BodyView,
    DnsHeader, PacketView, PreambleView, QuestionView, RecordClass, RecordType, RecordView,
};
use crate::wire::{put, u16_at, u16_bytes, u32_at, u32_bytes};

verus! {

/// Whether `buf` holds `bytes` from index `p` on.
pub open spec fn holds(buf: Seq<u8>, p: int, bytes: Seq<u8>) -> bool {
    &&& 0 <= p
    &&& p + bytes.len() <= buf.len()
    &&& buf.subrange(p, p + bytes.len()) == bytes
}

/// What holds two pieces in a row holds each of them.
pub proof fn lemma_holds_split(buf: Seq<u8>, p: int, x: Seq<u8>, y: Seq<u8>)
    requires
        holds(buf, p, x + y),
    ensures
        holds(buf, p, x),
        holds(buf, p + x.len(), y),
{
    let w = x + y;
    assert forall|k: int| 0 <= k < w.len() implies buf[p + k] == w[k] by {
        assert(buf.subrange(p, p + w.len())[k] == buf[p + k]);
    }
    assert(buf.subrange(p, p + x.len()) =~= x) by {
        assert forall|k: int| 0 <= k < x.len() implies buf.subrange(p, p + x.len())[k] == x[k] by {
            assert(w[k] == x[k]);
        }
    }
    assert(buf.subrange(p + x.len(), p + x.len() + y.len()) =~= y) by {
        assert forall|k: int| 0 <= k < y.len() implies buf.subrange(p + x.len(), p + x.len() + y.len())[k] == y[k] by {
            assert(w[x.len() + k] == y[k]);
        }
    }
}

/// Big-endian bytes of a 16-bit value read back as the value.
pub proof fn lemma_holds_u16(buf: Seq<u8>, p: int, v: u16)
    requires
        holds(buf, p, u16_bytes(v)),
    ensures
        u16_at(buf, p) == v,
{
    assert(buf[p] == buf.subrange(p, p + 2)[0]);
    assert(buf[p + 1] == buf.subrange(p, p + 2)[1]);
}

/// Big-endian bytes of a 32-bit value read back as the value.
pub proof fn lemma_holds_u32(buf: Seq<u8>, p: int, v: u32)
    requires
        holds(buf, p, u32_bytes(v)),
    ensures
        u32_at(buf, p) == v,
{
    assert(buf[p] == buf.subrange(p, p + 4)[0]);
    assert(buf[p + 1] == buf.subrange(p, p + 4)[1]);
    assert(buf[p + 2] == buf.subrange(p, p + 4)[2]);
    assert(buf[p + 3] == buf.subrange(p, p + 4)[3]);
}

/// A host name held in its wire form at `p` decodes to itself.
pub proof fn lemma_holds_name(buf: Seq<u8>, p: int, name: Seq<char>)
    requires
        is_host_name(name),
        holds(buf, p, label_wire(encode_utf8(name))),
    ensures
        label_emission(encode_utf8(name)).complete,
        label_wire(encode_utf8(name)).len() == encode_utf8(name).len() + 2,
        parse_name(buf, p) == Ok::<(Seq<char>, int), DnsError>((name, p + label_wire(encode_utf8(name)).len())),
{
    let b = encode_utf8(name);
    lemma_host_labels_fit(b, 0);
    lemma_label_wire_len(b, 0);
    lemma_walk_wire(b, 0, buf, p, 0);
    lemma_name_text(name);
}

/// Header round trip: the wire form of a header whose opcode fits in four bits and whose
/// reserved field fits in three decodes to the same header.
pub proof fn lemma_header_round_trip(buf: Seq<u8>, p: int, h: DnsHeader)
    requires
        h.opcode < 16,
        h.z < 8,
        holds(buf, p, header_wire(h)),
    ensures
        header_at(buf, p) == h,
{
    let w = header_wire(h);
    assert(w =~= seq![
        (h.id / 256) as u8,
        (h.id % 256) as u8,
        flags_hi(h),
        flags_lo(h),
        (h.question_count / 256) as u8,
        (h.question_count % 256) as u8,
        (h.answer_count / 256) as u8,
        (h.answer_count % 256) as u8,
        (h.nameserver_count / 256) as u8,
        (h.nameserver_count % 256) as u8,
        (h.additional_count / 256) as u8,
        (h.additional_count % 256) as u8,
    ]);
    assert forall|k: int| 0 <= k < 12 implies buf[p + k] == w[k] by {
        assert(buf.subrange(p, p + 12)[k] == buf[p + k]);
    }
    assert(holds(buf, p, u16_bytes(h.id))) by {
        assert(buf.subrange(p, p + 2) =~= u16_bytes(h.id));
    }
    assert(holds(buf, p + 4, u16_bytes(h.question_count))) by {
        assert(buf.subrange(p + 4, p + 6) =~= u16_bytes(h.question_count));
    }
    assert(holds(buf, p + 6, u16_bytes(h.answer_count))) by {
        assert(buf.subrange(p + 6, p + 8) =~= u16_bytes(h.answer_count));
    }
    assert(holds(buf, p + 8, u16_bytes(h.nameserver_count))) by {
        assert(buf.subrange(p + 8, p + 10) =~= u16_bytes(h.nameserver_count));
    }
    assert(holds(buf, p + 10, u16_bytes(h.additional_count))) by {
        assert(buf.subrange(p + 10, p + 12) =~= u16_bytes(h.additional_count));
    }
    lemma_holds_u16(buf, p, h.id);
    lemma_holds_u16(buf, p + 4, h.question_count);
    lemma_holds_u16(buf, p + 6, h.answer_count);
    lemma_holds_u16(buf, p + 8, h.nameserver_count);
    lemma_holds_u16(buf, p + 10, h.additional_count);
    let hi = flags_hi(h);
    let lo = flags_lo(h);
    assert(buf[p + 2] == hi);
    assert(buf[p + 3] == lo);
    let qr = h.query_response;
    let op = h.opcode;
    let aa = h.authoritative_answer;
    let tc = h.truncated_message;
    let rd = h.recursion_desired;
    let ra = h.recursion_available;
    let z = h.z;
    let c = h.response_code.code();
    assert((hi & 0x80 == 0x80) == qr && (hi & 0x78) >> 3u8 == op && (hi & 0x04 == 0x04) == aa && (hi & 0x02
        == 0x02) == tc && (hi & 0x01 == 0x01) == rd) by (bit_vector)
        requires
            op < 16,
            hi == (if qr { 0x80u8 } else { 0u8 }) | ((op & 0x0F) << 3u8) | (if aa { 0x04u8 } else { 0u8 }) | (
            if tc {
                0x02u8
            } else {
                0u8
            }) | (if rd { 0x01u8 } else { 0u8 }),
    ;
    assert((lo & 0x80 == 0x80) == ra && (lo & 0x70) >> 4u8 == z && lo & 0x0F == c) by (bit_vector)
        requires
            z < 8,
            c < 5,
            lo == (if ra { 0x80u8 } else { 0u8 }) | ((z & 0x07) << 4u8) | c,
    ;
}

/// Whether a question survives the wire form unchanged: its name is a host name.
pub open spec fn question_ok(q: QuestionView) -> bool {
    is_host_name(q.name)
}

/// Whether a record survives the wire form unchanged: host names, data of the shape its
/// type calls for (for a type without a shape here, no data and a number that names no
/// type here), and a
/// data length that is that of its data.
pub open spec fn record_ok(r: RecordView) -> bool {
    &&& is_host_name(r.preamble.name)
    &&& r.preamble.length as int == body_length(r.body)
    &&& match r.body {
        BodyView::Unknown { record_type } => r.preamble.record_type == RecordType::UNKNOWN
            && RecordType::from_code(record_type) == RecordType::UNKNOWN,
        BodyView::A { address } => r.preamble.record_type == RecordType::A && address.len() == 4,
        BodyView::Cname { name } => r.preamble.record_type == RecordType::CNAME && is_host_name(name),
        BodyView::Ns { name } => r.preamble.record_type == RecordType::NS && is_host_name(name),
    }
}

impl PacketView {
    /// Whether the message survives the wire form unchanged: counts that match the
    /// sections, an opcode of four bits, a reserved field of three bits, and questions and
    /// records that survive it.
    pub open spec fn well_formed(self) -> bool {
        &&& self.counts_match()
        &&& self.header.opcode < 16
        &&& self.header.z < 8
        &&& forall|i: int| 0 <= i < self.questions.len() ==> question_ok(#[trigger] self.questions[i])
        &&& forall|i: int| 0 <= i < self.answers.len() ==> record_ok(#[trigger] self.answers[i])
        &&& forall|i: int| 0 <= i < self.authorities.len() ==> record_ok(#[trigger] self.authorities[i])
        &&& forall|i: int| 0 <= i < self.additional.len() ==> record_ok(#[trigger] self.additional[i])
    }
}

/// Each type and class reads back from its number.
pub proof fn lemma_codes_round_trip(t: RecordType, c: RecordClass)
    ensures
        RecordType::from_code(t.code()) == t,
        RecordClass::from_code(c.code()) == c,
{
    match t {
        RecordType::UNKNOWN => {},
        RecordType::A => {},
        RecordType::NS => {},
        RecordType::CNAME => {},
    }
    match c {
        RecordClass::UNKNOWN => {},
        RecordClass::IN => {},
    }
}

/// The wire form of a question with a host name decodes to the same question.
pub proof fn lemma_question_round_trip(buf: Seq<u8>, p: int, q: QuestionView)
    requires
        buf.len() == CAPACITY,
        question_ok(q),
    ensures
        question_emission(q).complete,
        holds(buf, p, question_emission(q).bytes) ==> parse_question(buf, p) == Ok::<(QuestionView, int), DnsError>(
            (q, p + question_emission(q).bytes.len()),
        ),
{
    let w = label_wire(encode_utf8(q.name));
    let t = u16_bytes(q.record_type.code());
    let c = u16_bytes(q.record_class.code());
    lemma_host_labels_fit(encode_utf8(q.name), 0);
    if holds(buf, p, question_emission(q).bytes) {
        assert(question_emission(q).bytes =~= w + t + c);
        lemma_holds_split(buf, p, w + t, c);
        lemma_holds_split(buf, p, w, t);
        lemma_holds_name(buf, p, q.name);
        lemma_holds_u16(buf, p + w.len(), q.record_type.code());
        lemma_holds_u16(buf, p + w.len() + 2, q.record_class.code());
        lemma_codes_round_trip(q.record_type, q.record_class);
    }
}

/// The wire form of a record that survives it decodes to the same record.
pub proof fn lemma_record_round_trip(buf: Seq<u8>, p: int, r: RecordView)
    requires
        buf.len() == CAPACITY,
        record_ok(r),
    ensures
        record_emission(r).complete,
        holds(buf, p, record_emission(r).bytes) ==> parse_record(buf, p) == Ok::<(RecordView, int), DnsError>(
            (r, p + record_emission(r).bytes.len()),
        ),
{
    let pre = r.preamble;
    let w = label_wire(encode_utf8(pre.name));
    let len = length_field(body_length(r.body));
    let tc = written_type(r);
    let fixed = u16_bytes(tc) + u16_bytes(pre.record_class.code()) + u32_bytes(pre.ttl)
        + u16_bytes(len);
    lemma_host_labels_fit(encode_utf8(pre.name), 0);
    match r.body {
        BodyView::Cname { name } => lemma_host_labels_fit(encode_utf8(name), 0),
        BodyView::Ns { name } => lemma_host_labels_fit(encode_utf8(name), 0),
        _ => {},
    }
    assert(len == pre.length);
    let body = body_emission(r.body).bytes;
    if holds(buf, p, record_emission(r).bytes) {
        assert(record_emission(r).bytes =~= w + fixed + body);
        lemma_holds_split(buf, p, w + fixed, body);
        lemma_holds_split(buf, p, w, fixed);
        lemma_holds_name(buf, p, pre.name);
        let q = p + w.len();
        assert(fixed =~= u16_bytes(tc) + (u16_bytes(pre.record_class.code()) + (u32_bytes(pre.ttl)
            + u16_bytes(len))));
        lemma_holds_split(buf, q, u16_bytes(tc), u16_bytes(pre.record_class.code()) + (u32_bytes(pre.ttl)
            + u16_bytes(len)));
        lemma_holds_split(buf, q + 2, u16_bytes(pre.record_class.code()), u32_bytes(pre.ttl) + u16_bytes(len));
        lemma_holds_split(buf, q + 4, u32_bytes(pre.ttl), u16_bytes(len));
        lemma_holds_u16(buf, q, tc);
        lemma_holds_u16(buf, q + 2, pre.record_class.code());
        lemma_holds_u32(buf, q + 4, pre.ttl);
        lemma_holds_u16(buf, q + 8, len);
        lemma_codes_round_trip(pre.record_type, pre.record_class);
        assert(RecordType::from_code(tc) == pre.record_type);
        assert(u16_at(buf, q + 10 - 10) == tc);
        assert(parse_preamble(buf, p) == Ok::<(PreambleView, int), DnsError>((pre, q + 10)));
        let b0 = q + 10;
        match r.body {
            BodyView::A { address } => {
                assert(buf.subrange(b0, b0 + 4) =~= address);
            },
            BodyView::Cname { name } => {
                lemma_holds_name(buf, b0, name);
            },
            BodyView::Ns { name } => {
                lemma_holds_name(buf, b0, name);
            },
            BodyView::Unknown { .. } => {},
        }
    }
}

/// The wire form of a run of questions decodes to the same questions.
pub proof fn lemma_questions_round_trip(buf: Seq<u8>, p: int, qs: Seq<QuestionView>)
    requires
        buf.len() == CAPACITY,
        forall|i: int| 0 <= i < qs.len() ==> question_ok(#[trigger] qs[i]),
    ensures
        questions_emission(qs).complete,
        holds(buf, p, questions_emission(qs).bytes) ==> parse_questions(buf, p, qs.len()) == Ok::<
            (Seq<QuestionView>, int),
            DnsError,
        >((qs, p + questions_emission(qs).bytes.len())),
    decreases qs.len(),
{
    if qs.len() == 0 {
        assert(qs =~= seq![]);
    } else {
        let init = qs.drop_last();
        let e = questions_emission(init);
        assert(forall|i: int| 0 <= i < init.len() ==> init[i] == qs[i]);
        lemma_questions_round_trip(buf, p, init);
        lemma_question_round_trip(buf, p + e.bytes.len(), qs.last());
        if holds(buf, p, questions_emission(qs).bytes) {
            lemma_holds_split(buf, p, e.bytes, question_emission(qs.last()).bytes);
            assert(init.push(qs.last()) =~= qs);
        }
    }
}

/// The wire form of a run of records decodes to the same records.
pub proof fn lemma_records_round_trip(buf: Seq<u8>, p: int, rs: Seq<RecordView>)
    requires
        buf.len() == CAPACITY,
        forall|i: int| 0 <= i < rs.len() ==> record_ok(#[trigger] rs[i]),
    ensures
        records_emission(rs).complete,
        holds(buf, p, records_emission(rs).bytes) ==> parse_records(buf, p, rs.len()) == Ok::<
            (Seq<RecordView>, int),
            DnsError,
        >((rs, p + records_emission(rs).bytes.len())),
    decreases rs.len(),
{
    if rs.len() == 0 {
        assert(rs =~= seq![]);
    } else {
        let init = rs.drop_last();
        let e = records_emission(init);
        assert(forall|i: int| 0 <= i < init.len() ==> init[i] == rs[i]);
        lemma_records_round_trip(buf, p, init);
        lemma_record_round_trip(buf, p + e.bytes.len(), rs.last());
        if holds(buf, p, records_emission(rs).bytes) {
            lemma_holds_split(buf, p, e.bytes, record_emission(rs.last()).bytes);
            assert(init.push(rs.last()) =~= rs);
        }
    }
}

proof fn lemma_put_holds(buf: Seq<u8>, at: int, bytes: Seq<u8>)
    requires
        0 <= at,
        at + bytes.len() <= buf.len(),
    ensures
        holds(put(buf, at, bytes), at, bytes),
        put(buf, at, bytes).len() == buf.len(),
{
    assert(put(buf, at, bytes).subrange(at, at + bytes.len()) =~= bytes);
}

proof fn lemma_holds_parts(buf: Seq<u8>, at: int, h: Seq<u8>, q: Seq<u8>, a: Seq<u8>, n: Seq<u8>, d: Seq<u8>)
    requires
        holds(buf, at, h + q + a + n + d),
        h.len() == 12,
    ensures
        holds(buf, at, h),
        holds(buf, at + 12, q),
        holds(buf, at + 12 + q.len(), a),
        holds(buf, at + 12 + q.len() + a.len(), n),
        holds(buf, at + 12 + q.len() + a.len() + n.len(), d),
{
    lemma_holds_split(buf, at, h + q + a + n, d);
    lemma_holds_split(buf, at, h + q + a, n);
    lemma_holds_split(buf, at, h + q, a);
    lemma_holds_split(buf, at, h, q);
}

proof fn lemma_packet_bytes(buf: Seq<u8>, p: PacketView)
    requires
        buf.len() == CAPACITY,
        p.well_formed(),
    ensures
        packet_emission(p).complete,
        packet_emission(p).bytes == header_wire(p.header) + questions_emission(p.questions).bytes
            + records_emission(p.answers).bytes + records_emission(p.authorities).bytes + records_emission(
            p.additional,
        ).bytes,
{
    lemma_questions_round_trip(buf, 0, p.questions);
    lemma_records_round_trip(buf, 0, p.answers);
    lemma_records_round_trip(buf, 0, p.authorities);
    lemma_records_round_trip(buf, 0, p.additional);
}

proof fn lemma_parse_packet_parts(buf: Seq<u8>, at: int, p: PacketView, start_an: int, start_ns: int, start_ad: int, end: int)
    requires
        parse_header(buf, at) == Ok::<(DnsHeader, int), DnsError>((p.header, at + 12)),
        parse_questions(buf, at + 12, p.header.question_count as nat) == Ok::<(Seq<QuestionView>, int), DnsError>(
            (p.questions, start_an),
        ),
        parse_records(buf, start_an, p.header.answer_count as nat) == Ok::<(Seq<RecordView>, int), DnsError>(
            (p.answers, start_ns),
        ),
        parse_records(buf, start_ns, p.header.nameserver_count as nat) == Ok::<(Seq<RecordView>, int), DnsError>(
            (p.authorities, start_ad),
        ),
        parse_records(buf, start_ad, p.header.additional_count as nat) == Ok::<(Seq<RecordView>, int), DnsError>(
            (p.additional, end),
        ),
    ensures
        parse_packet(buf, at) == Ok::<(PacketView, int), DnsError>((p, end)),
{
}

/// A well-formed message held in its wire form at `at` decodes to itself.
#[verifier::rlimit(50)]
proof fn lemma_holds_packet(after: Seq<u8>, at: int, p: PacketView)
    requires
        after.len() == CAPACITY,
        p.well_formed(),
        packet_emission(p).complete,
        holds(after, at, packet_emission(p).bytes),
        packet_emission(p).bytes == header_wire(p.header) + questions_emission(p.questions).bytes
            + records_emission(p.answers).bytes + records_emission(p.authorities).bytes + records_emission(
            p.additional,
        ).bytes,
    ensures
        parse_packet(after, at) == Ok::<(PacketView, int), DnsError>((p, at + packet_emission(p).bytes.len())),
{
    let h = header_wire(p.header);
    let q = questions_emission(p.questions).bytes;
    let a = records_emission(p.answers).bytes;
    let n = records_emission(p.authorities).bytes;
    let d = records_emission(p.additional).bytes;
    lemma_holds_parts(after, at, h, q, a, n, d);
    let start_an = at + 12 + q.len();
    let start_ns = start_an + a.len();
    let start_ad = start_ns + n.len();
    lemma_header_round_trip(after, at, p.header);
    lemma_questions_round_trip(after, at + 12, p.questions);
    lemma_records_round_trip(after, start_an, p.answers);
    lemma_records_round_trip(after, start_ns, p.authorities);
    lemma_records_round_trip(after, start_ad, p.additional);
    lemma_parse_packet_parts(after, at, p, start_an, start_ns, start_ad, start_ad + d.len());
}

/// Round trip: writing a well-formed message from `at` on and decoding the message at
/// `at` gives the same header and the same questions and records back, and the cursor
/// ends where the writing did.
pub proof fn lemma_packet_round_trip(buf: Seq<u8>, at: int, p: PacketView)
    requires
        buf.len() == CAPACITY,
        p.well_formed(),
        0 <= at,
        at + packet_emission(p).bytes.len() <= CAPACITY,
    ensures
        packet_emission(p).complete,
        parse_packet(put(buf, at, packet_emission(p).bytes), at) == Ok::<(PacketView, int), DnsError>(
            (p, at + packet_emission(p).bytes.len()),
        ),
{
    lemma_packet_bytes(buf, p);
    lemma_put_holds(buf, at, packet_emission(p).bytes);
    lemma_holds_packet(put(buf, at, packet_emission(p).bytes), at, p);
}

} // verus!
