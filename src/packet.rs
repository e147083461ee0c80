use vstd::prelude::*;

use vstd::utf8::encode_utf8;

use crate::buffer::{DnsBuffer, DnsError, CAPACITY};
use crate::name::{label_emission, parse_name};
use crate::wire::{
    emit, extends, lemma_extends_refl, lemma_extends_trans, lemma_then_extends, then, u16_at, u16_bytes,
    u32_at, u32_bytes, Emission,
};

verus! {

/// The outcome of a decoder that read `parsed` from `before`: on success the value is
/// `value_after` and the cursor is where the parse ended; on failure the value and the
/// buffer are as they were.
pub open spec fn decoded<T>(
    before: DnsBuffer,
    after: DnsBuffer,
    parsed: Result<(T, int), DnsError>,
    value_before: T,
    value_after: T,
    r: Result<(), DnsError>,
) -> bool {
    &&& after.buf@ == before.buf@
    &&& match parsed {
        Ok((v, end)) => r is Ok && value_after == v && after.pos == end,
        Err(e) => r == Err::<(), DnsError>(e) && value_after == value_before && after.pos == before.pos,
    }
}

/// Response code of a message header.
#[derive(Clone, Copy, Debug, PartialEq, Eq, Structural)]
pub enum ResponseCode {
    NOERROR,
    FORMERR,
    SERVFAIL,
    NXDOMAIN,
    NOTIMP,
}

impl ResponseCode {
    pub open spec fn code(self) -> u8 {
        match self {
            ResponseCode::NOERROR => 0,
            ResponseCode::FORMERR => 1,
            ResponseCode::SERVFAIL => 2,
            ResponseCode::NXDOMAIN => 3,
            ResponseCode::NOTIMP => 4,
        }
    }

    /// The response code numbered `num`; numbers without a name read as NOERROR.
    pub open spec fn from_code(num: u8) -> ResponseCode {
        if num == 1 {
            ResponseCode::FORMERR
        } else if num == 2 {
            ResponseCode::SERVFAIL
        } else if num == 3 {
            ResponseCode::NXDOMAIN
        } else if num == 4 {
            ResponseCode::NOTIMP
        } else {
            ResponseCode::NOERROR
        }
    }

    /// The response code numbered `num`.
    pub fn from_num(num: u8) -> (r: ResponseCode)
        ensures
            r == ResponseCode::from_code(num),
    {
        match num {
            0 => ResponseCode::NOERROR,
            1 => ResponseCode::FORMERR,
            2 => ResponseCode::SERVFAIL,
            3 => ResponseCode::NXDOMAIN,
            4 => ResponseCode::NOTIMP,
            _ => ResponseCode::NOERROR,
        }
    }

    /// The number of this response code.
    pub fn to_num(&self) -> (r: u8)
        ensures
            r == self.code(),
    {
        match self {
            ResponseCode::NOERROR => 0,
            ResponseCode::FORMERR => 1,
            ResponseCode::SERVFAIL => 2,
            ResponseCode::NXDOMAIN => 3,
            ResponseCode::NOTIMP => 4,
        }
    }
}

/// The 12-byte header of a message.
#[derive(Clone, Copy, Debug, PartialEq, Eq, Structural)]
pub struct DnsHeader {
    pub id: u16,
    /// false for a query, true for a response
    pub query_response: bool,
    /// four bits
    pub opcode: u8,
    /// set when the responding server holds the canonical record
    pub authoritative_answer: bool,
    /// set when the message did not fit in 512 bytes
    pub truncated_message: bool,
    pub recursion_desired: bool,
    pub recursion_available: bool,
    /// three reserved bits
    pub z: u8,
    pub response_code: ResponseCode,
    pub question_count: u16,
    pub answer_count: u16,
    pub nameserver_count: u16,
    pub additional_count: u16,
}

/// The first flag byte: QR, OPCODE, AA, TC and RD, from the high bit down.
pub open spec fn flags_hi(h: DnsHeader) -> u8 {
    (if h.query_response { 0x80u8 } else { 0u8 }) | ((h.opcode & 0x0F) << 3u8) | (if h.authoritative_answer {
        0x04u8
    } else {
        0u8
    }) | (if h.truncated_message { 0x02u8 } else { 0u8 }) | (if h.recursion_desired { 0x01u8 } else { 0u8 })
}

/// The second flag byte: RA, Z and RCODE, from the high bit down.
pub open spec fn flags_lo(h: DnsHeader) -> u8 {
    (if h.recursion_available { 0x80u8 } else { 0u8 }) | ((h.z & 0x07) << 4u8) | h.response_code.code()
}

/// The wire form of a header.
pub open spec fn header_wire(h: DnsHeader) -> Seq<u8> {
    u16_bytes(h.id) + seq![flags_hi(h), flags_lo(h)] + u16_bytes(h.question_count) + u16_bytes(
        h.answer_count,
    ) + u16_bytes(h.nameserver_count) + u16_bytes(h.additional_count)
}

/// The header whose wire form starts at index `p`.
pub open spec fn header_at(buf: Seq<u8>, p: int) -> DnsHeader {
    let hi = buf[p + 2];
    let lo = buf[p + 3];
    DnsHeader {
        id: u16_at(buf, p),
        query_response: hi & 0x80 == 0x80,
        opcode: (hi & 0x78) >> 3u8,
        authoritative_answer: hi & 0x04 == 0x04,
        truncated_message: hi & 0x02 == 0x02,
        recursion_desired: hi & 0x01 == 0x01,
        recursion_available: lo & 0x80 == 0x80,
        z: (lo & 0x70) >> 4u8,
        response_code: ResponseCode::from_code(lo & 0x0F),
        question_count: u16_at(buf, p + 4),
        answer_count: u16_at(buf, p + 6),
        nameserver_count: u16_at(buf, p + 8),
        additional_count: u16_at(buf, p + 10),
    }
}

/// Decodes a header at `pos`: twelve bytes, or a failure when fewer are left.
pub open spec fn parse_header(buf: Seq<u8>, pos: int) -> Result<(DnsHeader, int), DnsError> {
    if pos + 12 <= CAPACITY {
        Ok((header_at(buf, pos), pos + 12))
    } else {
        Err(DnsError::OutOfBounds)
    }
}

impl DnsHeader {
    /// A header of a query with id 0, no flags set and empty sections.
    pub open spec fn new_spec() -> DnsHeader {
        DnsHeader {
            id: 0,
            query_response: false,
            opcode: 0,
            authoritative_answer: false,
            truncated_message: false,
            recursion_desired: false,
            recursion_available: false,
            z: 0,
            response_code: ResponseCode::NOERROR,
            question_count: 0,
            answer_count: 0,
            nameserver_count: 0,
            additional_count: 0,
        }
    }

    /// The header of a fresh message.
    pub fn new() -> (r: DnsHeader)
        ensures
            r == DnsHeader::new_spec(),
    {
        DnsHeader {
            id: 0,
            query_response: false,
            opcode: 0,
            authoritative_answer: false,
            truncated_message: false,
            recursion_desired: false,
            recursion_available: false,
            z: 0,
            response_code: ResponseCode::NOERROR,
            question_count: 0,
            answer_count: 0,
            nameserver_count: 0,
            additional_count: 0,
        }
    }

    /// Decodes the header at the cursor into `self`.
    pub fn read(&mut self, buf: &mut DnsBuffer) -> (r: Result<(), DnsError>)
        ensures
            decoded(*old(buf), *final(buf), parse_header(old(buf).buf@, old(buf).pos as int), *old(self), *final(self), r),
    {
        if buf.pos > CAPACITY - 12 {
            return Err(DnsError::OutOfBounds);
        }
        let id = match buf.read_u16() {
            Ok(v) => v,
            Err(e) => return Err(e),
        };
        let hi = match buf.read() {
            Ok(v) => v,
            Err(e) => return Err(e),
        };
        let lo = match buf.read() {
            Ok(v) => v,
            Err(e) => return Err(e),
        };
        let question_count = match buf.read_u16() {
            Ok(v) => v,
            Err(e) => return Err(e),
        };
        let answer_count = match buf.read_u16() {
            Ok(v) => v,
            Err(e) => return Err(e),
        };
        let nameserver_count = match buf.read_u16() {
            Ok(v) => v,
            Err(e) => return Err(e),
        };
        let additional_count = match buf.read_u16() {
            Ok(v) => v,
            Err(e) => return Err(e),
        };
        *self = DnsHeader {
            id,
            query_response: hi & 0x80 == 0x80,
            opcode: (hi & 0x78) >> 3u8,
            authoritative_answer: hi & 0x04 == 0x04,
            truncated_message: hi & 0x02 == 0x02,
            recursion_desired: hi & 0x01 == 0x01,
            recursion_available: lo & 0x80 == 0x80,
            z: (lo & 0x70) >> 4u8,
            response_code: ResponseCode::from_num(lo & 0x0F),
            question_count,
            answer_count,
            nameserver_count,
            additional_count,
        };
        Ok(())
    }

    /// Encodes the header at the cursor; only the low four bits of `opcode` and the low
    /// three bits of `z` are kept.
    pub fn write(&self, buf: &mut DnsBuffer) -> (r: Result<(), DnsError>)
        ensures
            old(buf).wrote(*final(buf), emit(header_wire(*self)), r),
    {
        let hi: u8 = (if self.query_response { 0x80u8 } else { 0u8 }) | ((self.opcode & 0x0F) << 3u8) | (
        if self.authoritative_answer {
            0x04u8
        } else {
            0u8
        }) | (if self.truncated_message { 0x02u8 } else { 0u8 }) | (if self.recursion_desired {
            0x01u8
        } else {
            0u8
        });
        let lo: u8 = (if self.recursion_available { 0x80u8 } else { 0u8 }) | ((self.z & 0x07) << 4u8)
            | self.response_code.to_num();
        let bytes: [u8; 12] = [
            (self.id / 256) as u8,
            (self.id % 256) as u8,
            hi,
            lo,
            (self.question_count / 256) as u8,
            (self.question_count % 256) as u8,
            (self.answer_count / 256) as u8,
            (self.answer_count % 256) as u8,
            (self.nameserver_count / 256) as u8,
            (self.nameserver_count % 256) as u8,
            (self.additional_count / 256) as u8,
            (self.additional_count % 256) as u8,
        ];
        assert(bytes@.subrange(0, 12) =~= header_wire(*self));
        buf.write_slice(bytes.as_slice(), 0, 12)
    }
}

/// The type of a question or record.
#[derive(Clone, Copy, Debug, PartialEq, Eq, Structural)]
pub enum RecordType {
    UNKNOWN,
    A,
    NS,
    CNAME,
}

impl RecordType {
    pub open spec fn code(self) -> u16 {
        match self {
            RecordType::UNKNOWN => 0,
            RecordType::A => 1,
            RecordType::NS => 2,
            RecordType::CNAME => 5,
        }
    }

    /// The type numbered `num`; numbers without a name read as UNKNOWN.
    pub open spec fn from_code(num: u16) -> RecordType {
        if num == 1 {
            RecordType::A
        } else if num == 2 {
            RecordType::NS
        } else if num == 5 {
            RecordType::CNAME
        } else {
            RecordType::UNKNOWN
        }
    }

    /// The type numbered `num`.
    pub fn from_num(num: u16) -> (r: RecordType)
        ensures
            r == RecordType::from_code(num),
    {
        match num {
            1 => RecordType::A,
            2 => RecordType::NS,
            5 => RecordType::CNAME,
            _ => RecordType::UNKNOWN,
        }
    }

    /// The number of this type; the type reads back from it.
    pub fn to_num(&self) -> (r: u16)
        ensures
            r == self.code(),
            RecordType::from_code(r) == *self,
    {
        match self {
            RecordType::A => 1,
            RecordType::NS => 2,
            RecordType::CNAME => 5,
            RecordType::UNKNOWN => 0,
        }
    }
}

/// The class of a question or record.
#[derive(Clone, Copy, Debug, PartialEq, Eq, Structural)]
pub enum RecordClass {
    UNKNOWN,
    IN,
}

impl RecordClass {
    pub open spec fn code(self) -> u16 {
        match self {
            RecordClass::UNKNOWN => 0,
            RecordClass::IN => 1,
        }
    }

    /// The class numbered `num`; numbers without a name read as UNKNOWN.
    pub open spec fn from_code(num: u16) -> RecordClass {
        if num == 1 {
            RecordClass::IN
        } else {
            RecordClass::UNKNOWN
        }
    }

    /// The class numbered `num`.
    pub fn from_num(num: u16) -> (r: RecordClass)
        ensures
            r == RecordClass::from_code(num),
    {
        match num {
            1 => RecordClass::IN,
            _ => RecordClass::UNKNOWN,
        }
    }

    /// The number of this code.
    pub fn to_num(&self) -> (r: u16)
        ensures
            r == self.code(),
    {
        match self {
            RecordClass::IN => 1,
            RecordClass::UNKNOWN => 0,
        }
    }
}

/// A question: which records of a name are asked for.
#[derive(Debug, PartialEq, Eq)]
pub struct DnsQuestion {
    pub name: String,
    pub record_type: RecordType,
    pub record_class: RecordClass,
}

pub struct QuestionView {
    pub name: Seq<char>,
    pub record_type: RecordType,
    pub record_class: RecordClass,
}

impl View for DnsQuestion {
    type V = QuestionView;

    open spec fn view(&self) -> QuestionView {
        QuestionView { name: self.name@, record_type: self.record_type, record_class: self.record_class }
    }
}

/// Decodes a question at `pos`: a name, its type and its class.
pub open spec fn parse_question(buf: Seq<u8>, pos: int) -> Result<(QuestionView, int), DnsError> {
    match parse_name(buf, pos) {
        Ok((name, p)) => if p + 4 <= CAPACITY {
            Ok(
                (
                    QuestionView {
                        name,
                        record_type: RecordType::from_code(u16_at(buf, p)),
                        record_class: RecordClass::from_code(u16_at(buf, p + 2)),
                    },
                    p + 4,
                ),
            )
        } else {
            Err(DnsError::OutOfBounds)
        },
        Err(e) => Err(e),
    }
}

/// What writing a question puts out.
pub open spec fn question_emission(q: QuestionView) -> Emission {
    then(
        label_emission(encode_utf8(q.name)),
        emit(u16_bytes(q.record_type.code()) + u16_bytes(q.record_class.code())),
    )
}

/// Fixed fields written one after another are one field.
pub proof fn lemma_then_emit(a: Emission, x: Seq<u8>, y: Seq<u8>)
    ensures
        then(then(a, emit(x)), emit(y)) == then(a, emit(x + y)),
{
    assert(a.bytes + x + y =~= a.bytes + (x + y));
}

impl DnsQuestion {
    /// An empty question.
    pub fn new() -> (r: DnsQuestion)
        ensures
            r@ == (QuestionView { name: seq![], record_type: RecordType::UNKNOWN, record_class: RecordClass::UNKNOWN }),
    {
        DnsQuestion { name: String::new(), record_type: RecordType::UNKNOWN, record_class: RecordClass::UNKNOWN }
    }

    /// Decodes the question at the cursor into `self`.
    pub fn read(&mut self, buf: &mut DnsBuffer) -> (r: Result<(), DnsError>)
        ensures
            decoded(*old(buf), *final(buf), parse_question(old(buf).buf@, old(buf).pos as int), old(self)@, final(self)@, r),
    {
        let start = buf.pos;
        let mut name = String::new();
        match buf.read_label(&mut name) {
            Ok(()) => {},
            Err(e) => return Err(e),
        }
        let record_type = match buf.read_u16() {
            Ok(v) => v,
            Err(e) => {
                buf.pos = start;
                return Err(e);
            },
        };
        let record_class = match buf.read_u16() {
            Ok(v) => v,
            Err(e) => {
                buf.pos = start;
                return Err(e);
            },
        };
        assert(seq![] + name@ == name@);
        *self = DnsQuestion {
            name,
            record_type: RecordType::from_num(record_type),
            record_class: RecordClass::from_num(record_class),
        };
        Ok(())
    }

    /// Encodes the question at the cursor.
    pub fn write(&self, buf: &mut DnsBuffer) -> (r: Result<(), DnsError>)
        ensures
            old(buf).wrote(*final(buf), question_emission(self@), r),
    {
        let ghost s0 = *buf;
        let ghost name = label_emission(encode_utf8(self.name@));
        let ghost t = u16_bytes(self.record_type.code());
        let ghost c = u16_bytes(self.record_class.code());
        proof { lemma_then_emit(name, t, c) }
        let r = buf.write_label(self.name.as_str());
        if r.is_err() {
            proof { s0.lemma_wrote_stop(*buf, name, emit(t + c), r) }
            return r;
        }
        let ghost s1 = *buf;
        let r = buf.write_u16(self.record_type.to_num());
        proof { s0.lemma_wrote_then(s1, *buf, name, emit(t), r) }
        if r.is_err() {
            proof { s0.lemma_wrote_stop(*buf, then(name, emit(t)), emit(c), r) }
            return r;
        }
        let ghost s2 = *buf;
        let r = buf.write_u16(self.record_class.to_num());
        proof { s0.lemma_wrote_then(s2, *buf, then(name, emit(t)), emit(c), r) }
        r
    }
}

/// The fixed part of a record ahead of its data: name, type, class, time to live and the
/// length of the data.
#[derive(Debug, PartialEq, Eq)]
pub struct DnsRecordPreamble {
    pub name: String,
    pub record_type: RecordType,
    pub record_class: RecordClass,
    pub ttl: u32,
    pub length: u16,
}

pub struct PreambleView {
    pub name: Seq<char>,
    pub record_type: RecordType,
    pub record_class: RecordClass,
    pub ttl: u32,
    pub length: u16,
}

impl View for DnsRecordPreamble {
    type V = PreambleView;

    open spec fn view(&self) -> PreambleView {
        PreambleView {
            name: self.name@,
            record_type: self.record_type,
            record_class: self.record_class,
            ttl: self.ttl,
            length: self.length,
        }
    }
}

/// Decodes a record preamble at `pos`: a name, then ten bytes of type, class, time to live
/// and data length.
pub open spec fn parse_preamble(buf: Seq<u8>, pos: int) -> Result<(PreambleView, int), DnsError> {
    match parse_name(buf, pos) {
        Ok((name, p)) => if p + 10 <= CAPACITY {
            Ok(
                (
                    PreambleView {
                        name,
                        record_type: RecordType::from_code(u16_at(buf, p)),
                        record_class: RecordClass::from_code(u16_at(buf, p + 2)),
                        ttl: u32_at(buf, p + 4),
                        length: u16_at(buf, p + 8),
                    },
                    p + 10,
                ),
            )
        } else {
            Err(DnsError::OutOfBounds)
        },
        Err(e) => Err(e),
    }
}

/// What writing a preamble with type number `type_code` and data length `length` puts out.
pub open spec fn preamble_emission(p: PreambleView, type_code: u16, length: u16) -> Emission {
    then(
        label_emission(encode_utf8(p.name)),
        emit(
            u16_bytes(type_code) + u16_bytes(p.record_class.code()) + u32_bytes(p.ttl)
                + u16_bytes(length),
        ),
    )
}

impl DnsRecordPreamble {
    /// An empty preamble.
    pub fn new() -> (r: DnsRecordPreamble)
        ensures
            r@ == (PreambleView {
                name: seq![],
                record_type: RecordType::UNKNOWN,
                record_class: RecordClass::UNKNOWN,
                ttl: 0,
                length: 0,
            }),
    {
        DnsRecordPreamble {
            name: String::new(),
            record_type: RecordType::UNKNOWN,
            record_class: RecordClass::UNKNOWN,
            ttl: 0,
            length: 0,
        }
    }

    /// Decodes the preamble at the cursor into `self`.
    pub fn read(&mut self, buf: &mut DnsBuffer) -> (r: Result<(), DnsError>)
        ensures
            decoded(*old(buf), *final(buf), parse_preamble(old(buf).buf@, old(buf).pos as int), old(self)@, final(self)@, r),
    {
        match self.read_type_code(buf) {
            Ok(_) => Ok(()),
            Err(e) => Err(e),
        }
    }

    /// Decodes the preamble at the cursor into `self`, and returns the type number as it
    /// stands on the wire, ten bytes before the end of the preamble.
    pub(crate) fn read_type_code(&mut self, buf: &mut DnsBuffer) -> (r: Result<u16, DnsError>)
        ensures
            final(buf).buf@ == old(buf).buf@,
            match parse_preamble(old(buf).buf@, old(buf).pos as int) {
                Ok((v, end)) => r == Ok::<u16, DnsError>(u16_at(old(buf).buf@, end - 10)) && final(self)@ == v
                    && final(buf).pos == end,
                Err(e) => r == Err::<u16, DnsError>(e) && final(self)@ == old(self)@ && final(buf).pos == old(buf).pos,
            },
    {
        let start = buf.pos;
        let mut name = String::new();
        match buf.read_label(&mut name) {
            Ok(()) => {},
            Err(e) => return Err(e),
        }
        if buf.pos > CAPACITY || CAPACITY - buf.pos < 10 {
            buf.pos = start;
            return Err(DnsError::OutOfBounds);
        }
        let record_type = match buf.read_u16() {
            Ok(v) => v,
            Err(e) => return Err(e),
        };
        let record_class = match buf.read_u16() {
            Ok(v) => v,
            Err(e) => return Err(e),
        };
        let ttl = match buf.read_u32() {
            Ok(v) => v,
            Err(e) => return Err(e),
        };
        let length = match buf.read_u16() {
            Ok(v) => v,
            Err(e) => return Err(e),
        };
        assert(seq![] + name@ == name@);
        *self = DnsRecordPreamble {
            name,
            record_type: RecordType::from_num(record_type),
            record_class: RecordClass::from_num(record_class),
            ttl,
            length,
        };
        Ok(record_type)
    }

    /// Encodes the preamble at the cursor with its own type and data length.
    pub fn write(&self, buf: &mut DnsBuffer) -> (r: Result<(), DnsError>)
        ensures
            old(buf).wrote(*final(buf), preamble_emission(self@, self.record_type.code(), self.length), r),
    {
        self.write_fields(buf, self.record_type.to_num(), self.length)
    }

    /// Encodes the preamble at the cursor with type number `type_code` and data length `length`.
    pub(crate) fn write_fields(&self, buf: &mut DnsBuffer, type_code: u16, length: u16) -> (r: Result<(), DnsError>)
        ensures
            old(buf).wrote(*final(buf), preamble_emission(self@, type_code, length), r),
    {
        let ghost s0 = *buf;
        let ghost name = label_emission(encode_utf8(self.name@));
        let ghost t = u16_bytes(type_code);
        let ghost c = u16_bytes(self.record_class.code());
        let ghost ttl = u32_bytes(self.ttl);
        let ghost len = u16_bytes(length);
        let r = buf.write_label(self.name.as_str());
        if r.is_err() {
            proof { s0.lemma_wrote_stop(*buf, name, emit(t + c + ttl + len), r) }
            return r;
        }
        assert(name.bytes + seq![] =~= name.bytes);
        assert(then(name, emit(seq![])) == name);
        let ghost s1 = *buf;
        let r = buf.write_u16(type_code);
        proof { s0.lemma_wrote_field(s1, *buf, name, seq![], t, c + ttl + len, r) }
        assert(seq![] + t =~= t);
        assert(seq![] + t + (c + ttl + len) =~= t + c + ttl + len);
        if r.is_err() {
            return r;
        }
        let ghost s2 = *buf;
        let r = buf.write_u16(self.record_class.to_num());
        proof { s0.lemma_wrote_field(s2, *buf, name, t, c, ttl + len, r) }
        assert(t + c + (ttl + len) =~= t + c + ttl + len);
        if r.is_err() {
            return r;
        }
        let ghost s3 = *buf;
        let r = buf.write_u32(self.ttl);
        proof { s0.lemma_wrote_field(s3, *buf, name, t + c, ttl, len, r) }
        if r.is_err() {
            return r;
        }
        let ghost s4 = *buf;
        let r = buf.write_u16(length);
        proof { s0.lemma_wrote_field(s4, *buf, name, t + c + ttl, len, seq![], r) }
        r
    }
}

/// The data of a record, whose shape follows the record's type.
#[derive(Debug, PartialEq, Eq)]
pub enum DnsRecordBody {
    /// A record of a type without a shape here; its data is skipped.
    UNKNOWN { record_type: u16 },
    /// An IPv4 address.
    A { address: [u8; 4] },
    /// The canonical name that the record's name is an alias of.
    CNAME { name: String },
    /// A name server.
    NS { name: String },
}

pub enum BodyView {
    Unknown { record_type: u16 },
    A { address: Seq<u8> },
    Cname { name: Seq<char> },
    Ns { name: Seq<char> },
}

impl View for DnsRecordBody {
    type V = BodyView;

    open spec fn view(&self) -> BodyView {
        match self {
            DnsRecordBody::UNKNOWN { record_type } => BodyView::Unknown { record_type: *record_type },
            DnsRecordBody::A { address } => BodyView::A { address: address@ },
            DnsRecordBody::CNAME { name } => BodyView::Cname { name: name@ },
            DnsRecordBody::NS { name } => BodyView::Ns { name: name@ },
        }
    }
}

/// Decodes record data of type number `type_code` and declared length `length` at `pos`.
/// Known types are read in their own shape whatever the declared length; the data of any
/// other type is skipped, exactly `length` bytes, and only its type number is kept.
pub open spec fn parse_body(buf: Seq<u8>, pos: int, type_code: u16, length: u16) -> Result<(BodyView, int), DnsError> {
    match RecordType::from_code(type_code) {
        RecordType::A => if pos + 4 <= CAPACITY {
            Ok((BodyView::A { address: buf.subrange(pos, pos + 4) }, pos + 4))
        } else {
            Err(DnsError::OutOfBounds)
        },
        RecordType::CNAME => match parse_name(buf, pos) {
            Ok((name, end)) => Ok((BodyView::Cname { name }, end)),
            Err(e) => Err(e),
        },
        RecordType::NS => match parse_name(buf, pos) {
            Ok((name, end)) => Ok((BodyView::Ns { name }, end)),
            Err(e) => Err(e),
        },
        RecordType::UNKNOWN => if pos + length <= CAPACITY {
            Ok((BodyView::Unknown { record_type: type_code }, pos + length))
        } else {
            Err(DnsError::OutOfBounds)
        },
    }
}

/// How many bytes the wire form of record data takes.
pub open spec fn body_length(b: BodyView) -> int {
    match b {
        BodyView::Unknown { .. } => 0,
        BodyView::A { address } => address.len() as int,
        BodyView::Cname { name } => encode_utf8(name).len() as int + 2,
        BodyView::Ns { name } => encode_utf8(name).len() as int + 2,
    }
}

/// A length as a 16-bit length field holds it: lengths past the largest one read as the
/// largest one (no such data fits in a message anyway).
pub open spec fn length_field(n: int) -> u16 {
    if n <= 0xFFFF {
        n as u16
    } else {
        0xFFFF
    }
}

/// What writing record data puts out; the data of an unknown type is not kept, so
/// nothing is written for it.
pub open spec fn body_emission(b: BodyView) -> Emission {
    match b {
        BodyView::Unknown { .. } => emit(seq![]),
        BodyView::A { address } => emit(address),
        BodyView::Cname { name } => label_emission(encode_utf8(name)),
        BodyView::Ns { name } => label_emission(encode_utf8(name)),
    }
}

impl DnsRecordBody {
    /// Decodes the data of a record whose preamble gives type number `record_type` and
    /// declares `length` bytes of data.
    pub fn read(record_type: u16, length: u16, buf: &mut DnsBuffer) -> (r: Result<DnsRecordBody, DnsError>)
        ensures
            final(buf).buf@ == old(buf).buf@,
            match parse_body(old(buf).buf@, old(buf).pos as int, record_type, length) {
                Ok((v, end)) => r is Ok && r->Ok_0@ == v && final(buf).pos == end,
                Err(e) => r == Err::<DnsRecordBody, DnsError>(e) && final(buf).pos == old(buf).pos,
            },
    {
        match RecordType::from_num(record_type) {
            RecordType::A => {
                if buf.pos > CAPACITY - 4 {
                    return Err(DnsError::OutOfBounds);
                }
                let start = buf.pos;
                let a = match buf.read() {
                    Ok(v) => v,
                    Err(e) => return Err(e),
                };
                let b = match buf.read() {
                    Ok(v) => v,
                    Err(e) => return Err(e),
                };
                let c = match buf.read() {
                    Ok(v) => v,
                    Err(e) => return Err(e),
                };
                let d = match buf.read() {
                    Ok(v) => v,
                    Err(e) => return Err(e),
                };
                let address = [a, b, c, d];
                assert(address@ =~= buf.buf@.subrange(start as int, start + 4));
                Ok(DnsRecordBody::A { address })
            },
            RecordType::CNAME => {
                let mut name = String::new();
                match buf.read_label(&mut name) {
                    Ok(()) => {},
                    Err(e) => return Err(e),
                }
                assert(seq![] + name@ == name@);
                Ok(DnsRecordBody::CNAME { name })
            },
            RecordType::NS => {
                let mut name = String::new();
                match buf.read_label(&mut name) {
                    Ok(()) => {},
                    Err(e) => return Err(e),
                }
                assert(seq![] + name@ == name@);
                Ok(DnsRecordBody::NS { name })
            },
            RecordType::UNKNOWN => {
                // the data of a type without a shape here is skipped, so that the next
                // record starts where it should
                if buf.pos > CAPACITY || length as usize > CAPACITY - buf.pos {
                    return Err(DnsError::OutOfBounds);
                }
                buf.pos = buf.pos + length as usize;
                Ok(DnsRecordBody::UNKNOWN { record_type })
            },
        }
    }

    /// How many bytes the wire form of the data takes (as a 16-bit length field).
    pub fn wire_length(&self) -> (r: u16)
        ensures
            r == length_field(body_length(self@)),
    {
        let n: usize = match self {
            DnsRecordBody::UNKNOWN { .. } => 0,
            DnsRecordBody::A { .. } => 4,
            DnsRecordBody::CNAME { name } => name.as_str().as_bytes().len(),
            DnsRecordBody::NS { name } => name.as_str().as_bytes().len(),
        };
        if let DnsRecordBody::A { address } = self {
            assert(address@.len() == 4);
        }
        match self {
            DnsRecordBody::UNKNOWN { .. } => 0,
            DnsRecordBody::A { .. } => 4,
            _ => if n > 0xFFFD {
                0xFFFF
            } else {
                (n + 2) as u16
            },
        }
    }

    /// Encodes the data at the cursor.
    pub fn write(&self, buf: &mut DnsBuffer) -> (r: Result<(), DnsError>)
        ensures
            old(buf).wrote(*final(buf), body_emission(self@), r),
    {
        match self {
            DnsRecordBody::A { address } => {
                assert(address@.subrange(0, 4) =~= address@);
                buf.write_slice(address.as_slice(), 0, 4)
            },
            DnsRecordBody::CNAME { name } => buf.write_label(name.as_str()),
            DnsRecordBody::NS { name } => buf.write_label(name.as_str()),
            DnsRecordBody::UNKNOWN { .. } => {
                proof { buf.lemma_wrote_nothing() }
                Ok(())
            },
        }
    }
}

/// A resource record: its preamble and its data.
#[derive(Debug, PartialEq, Eq)]
pub struct DnsRecord {
    pub preamble: DnsRecordPreamble,
    pub body: DnsRecordBody,
}

pub struct RecordView {
    pub preamble: PreambleView,
    pub body: BodyView,
}

impl View for DnsRecord {
    type V = RecordView;

    open spec fn view(&self) -> RecordView {
        RecordView { preamble: self.preamble@, body: self.body@ }
    }
}

/// Decodes a record at `pos`: its preamble, then data in the shape that the type number in
/// the preamble calls for.
pub open spec fn parse_record(buf: Seq<u8>, pos: int) -> Result<(RecordView, int), DnsError> {
    match parse_preamble(buf, pos) {
        Ok((preamble, p)) => match parse_body(buf, p, u16_at(buf, p - 10), preamble.length) {
            Ok((body, end)) => Ok((RecordView { preamble, body }, end)),
            Err(e) => Err(e),
        },
        Err(e) => Err(e),
    }
}

/// The type number a record is written with: the number of its preamble's type, or for
/// data of a type without a shape here, the number that data keeps.
pub open spec fn written_type(r: RecordView) -> u16 {
    match r.body {
        BodyView::Unknown { record_type } => record_type,
        _ => r.preamble.record_type.code(),
    }
}

/// What writing a record puts out: the data length in its preamble is that of the data
/// as written, whatever the preamble held.
pub open spec fn record_emission(r: RecordView) -> Emission {
    then(preamble_emission(r.preamble, written_type(r), length_field(body_length(r.body))), body_emission(r.body))
}

impl DnsRecord {
    /// An empty record of unknown type.
    pub fn new() -> (r: DnsRecord)
        ensures
            r@ == (RecordView {
                preamble: PreambleView {
                    name: seq![],
                    record_type: RecordType::UNKNOWN,
                    record_class: RecordClass::UNKNOWN,
                    ttl: 0,
                    length: 0,
                },
                body: BodyView::Unknown { record_type: 0 },
            }),
    {
        DnsRecord { preamble: DnsRecordPreamble::new(), body: DnsRecordBody::UNKNOWN { record_type: 0 } }
    }

    /// Decodes the record at the cursor into `self`.
    pub fn read(&mut self, buf: &mut DnsBuffer) -> (r: Result<(), DnsError>)
        ensures
            decoded(*old(buf), *final(buf), parse_record(old(buf).buf@, old(buf).pos as int), old(self)@, final(self)@, r),
    {
        let start = buf.pos;
        let mut preamble = DnsRecordPreamble::new();
        let type_code = match preamble.read_type_code(buf) {
            Ok(t) => t,
            Err(e) => return Err(e),
        };
        let body = match DnsRecordBody::read(type_code, preamble.length, buf) {
            Ok(b) => b,
            Err(e) => {
                buf.pos = start;
                return Err(e);
            },
        };
        *self = DnsRecord { preamble, body };
        Ok(())
    }

    /// Encodes the record at the cursor, with the length of its data as written; data of a
    /// type without a shape here is written under the type number it keeps.
    pub fn write(&self, buf: &mut DnsBuffer) -> (r: Result<(), DnsError>)
        ensures
            old(buf).wrote(*final(buf), record_emission(self@), r),
    {
        let ghost s0 = *buf;
        let length = self.body.wire_length();
        let type_code = match &self.body {
            DnsRecordBody::UNKNOWN { record_type } => *record_type,
            _ => self.preamble.record_type.to_num(),
        };
        let ghost pre = preamble_emission(self.preamble@, type_code, length);
        let r = self.preamble.write_fields(buf, type_code, length);
        if r.is_err() {
            proof { s0.lemma_wrote_stop(*buf, pre, body_emission(self.body@), r) }
            return r;
        }
        let ghost s1 = *buf;
        let r = self.body.write(buf);
        proof { s0.lemma_wrote_then(s1, *buf, pre, body_emission(self.body@), r) }
        r
    }
}

// ---- sections ----

/// The views of a section's questions.
pub open spec fn questions_view(v: Seq<DnsQuestion>) -> Seq<QuestionView> {
    v.map_values(|q: DnsQuestion| q@)
}

/// The views of a section's records.
pub open spec fn records_view(v: Seq<DnsRecord>) -> Seq<RecordView> {
    v.map_values(|r: DnsRecord| r@)
}

/// Decodes `n` questions, one after another, from `pos` on.
pub open spec fn parse_questions(buf: Seq<u8>, pos: int, n: nat) -> Result<(Seq<QuestionView>, int), DnsError>
    decreases n,
{
    if n == 0 {
        Ok((seq![], pos))
    } else {
        match parse_questions(buf, pos, (n - 1) as nat) {
            Ok((qs, p)) => match parse_question(buf, p) {
                Ok((q, end)) => Ok((qs.push(q), end)),
                Err(e) => Err(e),
            },
            Err(e) => Err(e),
        }
    }
}

/// Decodes `n` records, one after another, from `pos` on.
pub open spec fn parse_records(buf: Seq<u8>, pos: int, n: nat) -> Result<(Seq<RecordView>, int), DnsError>
    decreases n,
{
    if n == 0 {
        Ok((seq![], pos))
    } else {
        match parse_records(buf, pos, (n - 1) as nat) {
            Ok((rs, p)) => match parse_record(buf, p) {
                Ok((r, end)) => Ok((rs.push(r), end)),
                Err(e) => Err(e),
            },
            Err(e) => Err(e),
        }
    }
}

/// What writing the questions, in order, puts out.
pub open spec fn questions_emission(qs: Seq<QuestionView>) -> Emission
    decreases qs.len(),
{
    if qs.len() == 0 {
        emit(seq![])
    } else {
        then(questions_emission(qs.drop_last()), question_emission(qs.last()))
    }
}

/// What writing the records, in order, puts out.
pub open spec fn records_emission(rs: Seq<RecordView>) -> Emission
    decreases rs.len(),
{
    if rs.len() == 0 {
        emit(seq![])
    } else {
        then(records_emission(rs.drop_last()), record_emission(rs.last()))
    }
}

/// Once decoding questions fails, decoding more of them fails the same way.
pub proof fn lemma_parse_questions_stop(buf: Seq<u8>, pos: int, k: nat, n: nat)
    requires
        k <= n,
        parse_questions(buf, pos, k) is Err,
    ensures
        parse_questions(buf, pos, n) == parse_questions(buf, pos, k),
    decreases n,
{
    if n > k {
        lemma_parse_questions_stop(buf, pos, k, (n - 1) as nat);
    }
}

/// Once decoding records fails, decoding more of them fails the same way.
pub proof fn lemma_parse_records_stop(buf: Seq<u8>, pos: int, k: nat, n: nat)
    requires
        k <= n,
        parse_records(buf, pos, k) is Err,
    ensures
        parse_records(buf, pos, n) == parse_records(buf, pos, k),
    decreases n,
{
    if n > k {
        lemma_parse_records_stop(buf, pos, k, (n - 1) as nat);
    }
}

/// Decoding `n` questions gives `n` of them.
pub proof fn lemma_parse_questions_len(buf: Seq<u8>, pos: int, n: nat)
    ensures
        parse_questions(buf, pos, n) is Ok ==> parse_questions(buf, pos, n)->Ok_0.0.len() == n,
    decreases n,
{
    if n > 0 {
        lemma_parse_questions_len(buf, pos, (n - 1) as nat);
    }
}

/// Decoding `n` records gives `n` of them.
pub proof fn lemma_parse_records_len(buf: Seq<u8>, pos: int, n: nat)
    ensures
        parse_records(buf, pos, n) is Ok ==> parse_records(buf, pos, n)->Ok_0.0.len() == n,
    decreases n,
{
    if n > 0 {
        lemma_parse_records_len(buf, pos, (n - 1) as nat);
    }
}

/// Writing some questions starts as writing the first `k` of them does.
pub proof fn lemma_questions_prefix(qs: Seq<QuestionView>, k: int)
    requires
        0 <= k <= qs.len(),
    ensures
        extends(questions_emission(qs), questions_emission(qs.take(k))),
    decreases qs.len(),
{
    if k == qs.len() {
        assert(qs.take(k) =~= qs);
        lemma_extends_refl(questions_emission(qs));
    } else {
        let shorter = qs.drop_last();
        lemma_questions_prefix(shorter, k);
        assert(shorter.take(k) =~= qs.take(k));
        lemma_then_extends(questions_emission(shorter), question_emission(qs.last()));
        lemma_extends_trans(questions_emission(qs), questions_emission(shorter), questions_emission(qs.take(k)));
    }
}

/// Writing some records starts as writing the first `k` of them does.
pub proof fn lemma_records_prefix(rs: Seq<RecordView>, k: int)
    requires
        0 <= k <= rs.len(),
    ensures
        extends(records_emission(rs), records_emission(rs.take(k))),
    decreases rs.len(),
{
    if k == rs.len() {
        assert(rs.take(k) =~= rs);
        lemma_extends_refl(records_emission(rs));
    } else {
        let shorter = rs.drop_last();
        lemma_records_prefix(shorter, k);
        assert(shorter.take(k) =~= rs.take(k));
        lemma_then_extends(records_emission(shorter), record_emission(rs.last()));
        lemma_extends_trans(records_emission(rs), records_emission(shorter), records_emission(rs.take(k)));
    }
}

/// Decodes `count` questions from the cursor on.
fn read_questions(buf: &mut DnsBuffer, count: u16) -> (r: Result<Vec<DnsQuestion>, DnsError>)
    ensures
        final(buf).buf@ == old(buf).buf@,
        match parse_questions(old(buf).buf@, old(buf).pos as int, count as nat) {
            Ok((qs, end)) => r is Ok && questions_view(r->Ok_0@) == qs && final(buf).pos == end,
            Err(e) => r == Err::<Vec<DnsQuestion>, DnsError>(e),
        },
{
    let mut out: Vec<DnsQuestion> = Vec::new();
    let mut i: u16 = 0;
    assert(questions_view(out@) =~= seq![]);
    while i < count
        invariant
            i <= count,
            buf.buf@ == old(buf).buf@,
            parse_questions(old(buf).buf@, old(buf).pos as int, i as nat) == Ok::<(Seq<QuestionView>, int), DnsError>(
                (questions_view(out@), buf.pos as int),
            ),
        decreases count - i,
    {
        let mut q = DnsQuestion::new();
        match q.read(buf) {
            Ok(()) => {},
            Err(e) => {
                proof {
                    lemma_parse_questions_stop(old(buf).buf@, old(buf).pos as int, (i + 1) as nat, count as nat);
                }
                return Err(e);
            },
        }
        let ghost before = out@;
        out.push(q);
        assert(questions_view(out@) =~= questions_view(before).push(q@));
        i += 1;
    }
    Ok(out)
}

/// Decodes `count` records from the cursor on.
fn read_records(buf: &mut DnsBuffer, count: u16) -> (r: Result<Vec<DnsRecord>, DnsError>)
    ensures
        final(buf).buf@ == old(buf).buf@,
        match parse_records(old(buf).buf@, old(buf).pos as int, count as nat) {
            Ok((rs, end)) => r is Ok && records_view(r->Ok_0@) == rs && final(buf).pos == end,
            Err(e) => r == Err::<Vec<DnsRecord>, DnsError>(e),
        },
{
    let mut out: Vec<DnsRecord> = Vec::new();
    let mut i: u16 = 0;
    assert(records_view(out@) =~= seq![]);
    while i < count
        invariant
            i <= count,
            buf.buf@ == old(buf).buf@,
            parse_records(old(buf).buf@, old(buf).pos as int, i as nat) == Ok::<(Seq<RecordView>, int), DnsError>(
                (records_view(out@), buf.pos as int),
            ),
        decreases count - i,
    {
        let mut rec = DnsRecord::new();
        match rec.read(buf) {
            Ok(()) => {},
            Err(e) => {
                proof {
                    lemma_parse_records_stop(old(buf).buf@, old(buf).pos as int, (i + 1) as nat, count as nat);
                }
                return Err(e);
            },
        }
        let ghost before = out@;
        out.push(rec);
        assert(records_view(out@) =~= records_view(before).push(rec@));
        i += 1;
    }
    Ok(out)
}

/// Encodes the questions, in order, at the cursor.
fn write_questions(buf: &mut DnsBuffer, qs: &Vec<DnsQuestion>) -> (r: Result<(), DnsError>)
    ensures
        old(buf).wrote(*final(buf), questions_emission(questions_view(qs@)), r),
{
    let ghost s0 = *buf;
    let ghost all = questions_view(qs@);
    proof {
        s0.lemma_wrote_nothing();
        assert(all.take(0) =~= seq![]);
    }
    let mut i: usize = 0;
    while i < qs.len()
        invariant
            i <= qs@.len(),
            s0 == *old(buf),
            all == questions_view(qs@),
            s0.wrote(*buf, questions_emission(all.take(i as int)), Ok(())),
        decreases qs@.len() - i,
    {
        let ghost s1 = *buf;
        let r = qs[i].write(buf);
        proof {
            assert(all.take(i + 1).drop_last() =~= all.take(i as int));
            assert(all.take(i + 1).last() == qs@[i as int]@);
            s0.lemma_wrote_then(s1, *buf, questions_emission(all.take(i as int)), question_emission(qs@[i as int]@), r);
        }
        if r.is_err() {
            proof {
                lemma_questions_prefix(all, i + 1);
                assert(all.take(all.len() as int) =~= all);
                s0.lemma_wrote_extends(*buf, questions_emission(all.take(i + 1)), questions_emission(all), r);
            }
            return r;
        }
        i += 1;
    }
    assert(all.take(i as int) =~= all);
    Ok(())
}

/// Encodes the records, in order, at the cursor.
fn write_records(buf: &mut DnsBuffer, rs: &Vec<DnsRecord>) -> (r: Result<(), DnsError>)
    ensures
        old(buf).wrote(*final(buf), records_emission(records_view(rs@)), r),
{
    let ghost s0 = *buf;
    let ghost all = records_view(rs@);
    proof {
        s0.lemma_wrote_nothing();
        assert(all.take(0) =~= seq![]);
    }
    let mut i: usize = 0;
    while i < rs.len()
        invariant
            i <= rs@.len(),
            s0 == *old(buf),
            all == records_view(rs@),
            s0.wrote(*buf, records_emission(all.take(i as int)), Ok(())),
        decreases rs@.len() - i,
    {
        let ghost s1 = *buf;
        let r = rs[i].write(buf);
        proof {
            assert(all.take(i + 1).drop_last() =~= all.take(i as int));
            assert(all.take(i + 1).last() == rs@[i as int]@);
            s0.lemma_wrote_then(s1, *buf, records_emission(all.take(i as int)), record_emission(rs@[i as int]@), r);
        }
        if r.is_err() {
            proof {
                lemma_records_prefix(all, i + 1);
                s0.lemma_wrote_extends(*buf, records_emission(all.take(i + 1)), records_emission(all), r);
            }
            return r;
        }
        i += 1;
    }
    assert(all.take(i as int) =~= all);
    Ok(())
}

// ---- messages ----

/// A message: a header and four sections.
#[derive(Debug)]
pub struct DnsPacket {
    pub header: DnsHeader,
    pub questions: Vec<DnsQuestion>,
    pub answers: Vec<DnsRecord>,
    pub authorities: Vec<DnsRecord>,
    pub additional: Vec<DnsRecord>,
}

pub struct PacketView {
    pub header: DnsHeader,
    pub questions: Seq<QuestionView>,
    pub answers: Seq<RecordView>,
    pub authorities: Seq<RecordView>,
    pub additional: Seq<RecordView>,
}

impl View for DnsPacket {
    type V = PacketView;

    open spec fn view(&self) -> PacketView {
        PacketView {
            header: self.header,
            questions: questions_view(self.questions@),
            answers: records_view(self.answers@),
            authorities: records_view(self.authorities@),
            additional: records_view(self.additional@),
        }
    }
}

impl PacketView {
    /// Whether the header's counts are the lengths of the sections.
    pub open spec fn counts_match(self) -> bool {
        &&& self.header.question_count == self.questions.len()
        &&& self.header.answer_count == self.answers.len()
        &&& self.header.nameserver_count == self.authorities.len()
        &&& self.header.additional_count == self.additional.len()
    }
}

/// Decodes a message at `pos`: the header, then as many questions, answers, authority
/// records and additional records as it counts, in that order.
pub open spec fn parse_packet(buf: Seq<u8>, pos: int) -> Result<(PacketView, int), DnsError> {
    match parse_header(buf, pos) {
        Ok((header, start_q)) => match parse_questions(buf, start_q, header.question_count as nat) {
            Ok((questions, start_an)) => match parse_records(buf, start_an, header.answer_count as nat) {
                Ok((answers, start_ns)) => match parse_records(buf, start_ns, header.nameserver_count as nat) {
                    Ok((authorities, start_ad)) => match parse_records(buf, start_ad, header.additional_count as nat) {
                        Ok((additional, end)) => Ok(
                            (PacketView { header, questions, answers, authorities, additional }, end),
                        ),
                        Err(e) => Err(e),
                    },
                    Err(e) => Err(e),
                },
                Err(e) => Err(e),
            },
            Err(e) => Err(e),
        },
        Err(e) => Err(e),
    }
}

/// What writing a message puts out: the header, then each section in order.
pub open spec fn packet_emission(p: PacketView) -> Emission {
    then(
        then(
            then(then(emit(header_wire(p.header)), questions_emission(p.questions)), records_emission(p.answers)),
            records_emission(p.authorities),
        ),
        records_emission(p.additional),
    )
}

/// The query that asks for records of type `record_type` of `name`, with recursion desired.
pub open spec fn query_view(name: Seq<char>, record_type: RecordType) -> PacketView {
    PacketView {
        header: DnsHeader {
            id: 0,
            query_response: false,
            opcode: 0,
            authoritative_answer: false,
            truncated_message: false,
            recursion_desired: true,
            recursion_available: false,
            z: 0,
            response_code: ResponseCode::NOERROR,
            question_count: 1,
            answer_count: 0,
            nameserver_count: 0,
            additional_count: 0,
        },
        questions: seq![QuestionView { name, record_type, record_class: RecordClass::IN }],
        answers: seq![],
        authorities: seq![],
        additional: seq![],
    }
}

impl DnsPacket {
    /// A message with a fresh header and empty sections.
    pub fn new() -> (r: DnsPacket)
        ensures
            r@ == (PacketView {
                header: r.header,
                questions: seq![],
                answers: seq![],
                authorities: seq![],
                additional: seq![],
            }),
            r.header == DnsHeader::new_spec(),
    {
        let r = DnsPacket {
            header: DnsHeader::new(),
            questions: Vec::new(),
            answers: Vec::new(),
            authorities: Vec::new(),
            additional: Vec::new(),
        };
        assert(questions_view(r.questions@) =~= seq![]);
        assert(records_view(r.answers@) =~= seq![]);
        r
    }

    /// Decodes the message at the cursor into `self`, replacing what it held. A message
    /// read this way has as many questions and records as its header counts.
    pub fn read(&mut self, buf: &mut DnsBuffer) -> (r: Result<(), DnsError>)
        ensures
            decoded(*old(buf), *final(buf), parse_packet(old(buf).buf@, old(buf).pos as int), old(self)@, final(self)@, r),
            r is Ok ==> final(self)@.counts_match(),
    {
        let start = buf.pos;
        let mut header = DnsHeader::new();
        match header.read(buf) {
            Ok(()) => {},
            Err(e) => return Err(e),
        }
        let questions = match read_questions(buf, header.question_count) {
            Ok(v) => v,
            Err(e) => {
                buf.pos = start;
                return Err(e);
            },
        };
        let answers = match read_records(buf, header.answer_count) {
            Ok(v) => v,
            Err(e) => {
                buf.pos = start;
                return Err(e);
            },
        };
        let authorities = match read_records(buf, header.nameserver_count) {
            Ok(v) => v,
            Err(e) => {
                buf.pos = start;
                return Err(e);
            },
        };
        let additional = match read_records(buf, header.additional_count) {
            Ok(v) => v,
            Err(e) => {
                buf.pos = start;
                return Err(e);
            },
        };
        proof {
            let b = old(buf).buf@;
            lemma_parse_questions_len(b, old(buf).pos + 12, header.question_count as nat);
            match parse_questions(b, old(buf).pos + 12, header.question_count as nat) {
                Ok((_, start_an)) => {
                    lemma_parse_records_len(b, start_an, header.answer_count as nat);
                    match parse_records(b, start_an, header.answer_count as nat) {
                        Ok((_, start_ns)) => {
                            lemma_parse_records_len(b, start_ns, header.nameserver_count as nat);
                            match parse_records(b, start_ns, header.nameserver_count as nat) {
                                Ok((_, start_ad)) => lemma_parse_records_len(b, start_ad, header.additional_count as nat),
                                Err(_) => {},
                            }
                        },
                        Err(_) => {},
                    }
                },
                Err(_) => {},
            }
        }
        *self = DnsPacket { header, questions, answers, authorities, additional };
        Ok(())
    }

    /// Whether the header's counts are the lengths of the sections, as writing asks.
    pub fn counts_match(&self) -> (r: bool)
        ensures
            r == self@.counts_match(),
    {
        self.header.question_count as usize == self.questions.len() && self.header.answer_count as usize
            == self.answers.len() && self.header.nameserver_count as usize == self.authorities.len()
            && self.header.additional_count as usize == self.additional.len()
    }

    /// The query for the A records of `hostname`.
    pub fn from_query(hostname: &String) -> (r: Result<DnsPacket, DnsError>)
        ensures
            r is Ok && r->Ok_0@ == query_view(hostname@, RecordType::A),
    {
        Ok(DnsPacket::from_query_type(hostname, RecordType::A))
    }

    /// The query for the records of type `record_type` of `hostname`.
    pub fn from_query_type(hostname: &String, record_type: RecordType) -> (r: DnsPacket)
        ensures
            r@ == query_view(hostname@, record_type),
    {
        let mut packet = DnsPacket::new();
        packet.header.recursion_desired = true;
        packet.header.question_count = 1;
        let question = DnsQuestion { name: hostname.clone(), record_type, record_class: RecordClass::IN };
        packet.questions.push(question);
        assert(packet@.questions =~= seq![question@]);
        packet
    }

    /// Encodes the message at the cursor. The header's counts are those of the sections.
    pub fn write(&self, buf: &mut DnsBuffer) -> (r: Result<(), DnsError>)
        requires
            self@.counts_match(),
        ensures
            old(buf).wrote(*final(buf), packet_emission(self@), r),
    {
        let ghost p = self@;
        let ghost h = emit(header_wire(p.header));
        let ghost q = then(h, questions_emission(p.questions));
        let ghost a = then(q, records_emission(p.answers));
        let ghost n = then(a, records_emission(p.authorities));
        let ghost s0 = *buf;
        let r = self.header.write(buf);
        if r.is_err() {
            proof {
                s0.lemma_wrote_stop(*buf, h, questions_emission(p.questions), r);
                s0.lemma_wrote_stop(*buf, q, records_emission(p.answers), r);
                s0.lemma_wrote_stop(*buf, a, records_emission(p.authorities), r);
                s0.lemma_wrote_stop(*buf, n, records_emission(p.additional), r);
            }
            return r;
        }
        let ghost s1 = *buf;
        let r = write_questions(buf, &self.questions);
        proof { s0.lemma_wrote_then(s1, *buf, h, questions_emission(p.questions), r) }
        if r.is_err() {
            proof {
                s0.lemma_wrote_stop(*buf, q, records_emission(p.answers), r);
                s0.lemma_wrote_stop(*buf, a, records_emission(p.authorities), r);
                s0.lemma_wrote_stop(*buf, n, records_emission(p.additional), r);
            }
            return r;
        }
        let ghost s2 = *buf;
        let r = write_records(buf, &self.answers);
        proof { s0.lemma_wrote_then(s2, *buf, q, records_emission(p.answers), r) }
        if r.is_err() {
            proof {
                s0.lemma_wrote_stop(*buf, a, records_emission(p.authorities), r);
                s0.lemma_wrote_stop(*buf, n, records_emission(p.additional), r);
            }
            return r;
        }
        let ghost s3 = *buf;
        let r = write_records(buf, &self.authorities);
        proof { s0.lemma_wrote_then(s3, *buf, a, records_emission(p.authorities), r) }
        if r.is_err() {
            proof { s0.lemma_wrote_stop(*buf, n, records_emission(p.additional), r) }
            return r;
        }
        let ghost s4 = *buf;
        let r = write_records(buf, &self.additional);
        proof { s0.lemma_wrote_then(s4, *buf, n, records_emission(p.additional), r) }
        r
    }
}

} // verus!
