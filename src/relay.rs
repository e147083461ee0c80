use vstd::prelude::*;

use crate::buffer::DnsBuffer;
use crate::packet::{
    parse_packet, DnsHeader, DnsPacket, DnsQuestion, PacketView, QuestionView, ResponseCode,
};
use crate::wire::u16_at;

verus! {

/// What a forwarding server does with a client's datagram.
pub enum Exchange {
    /// Send this response back to the client at once.
    Reply(DnsPacket),
    /// Send `query` upstream, and answer the client with `finish_response(reply, id)`.
    Forward { id: u16, query: DnsPacket },
}

/// The query sent upstream for question `q` of a client query with id `id`.
pub open spec fn forward_view(id: u16, q: QuestionView) -> PacketView {
    PacketView {
        header: DnsHeader { id, recursion_desired: true, question_count: 1, ..DnsHeader::new_spec() },
        questions: seq![q],
        answers: seq![],
        authorities: seq![],
        additional: seq![],
    }
}

/// A response made ready for the client of query `id`: the client's id, recursion
/// available, and marked as a response.
pub open spec fn finished(p: PacketView, id: u16) -> PacketView {
    PacketView {
        header: DnsHeader { id, recursion_available: true, query_response: true, ..p.header },
        ..p
    }
}

/// The response to a malformed query with id `id`.
pub open spec fn formerr_view(id: u16) -> PacketView {
    finished(
        PacketView {
            header: DnsHeader {
                recursion_desired: true,
                response_code: ResponseCode::FORMERR,
                ..DnsHeader::new_spec()
            },
            questions: seq![],
            answers: seq![],
            authorities: seq![],
            additional: seq![],
        },
        id,
    )
}

/// The id and first question of the query held from the start of `buf`, when it decodes
/// and asks something.
pub open spec fn first_question(buf: Seq<u8>) -> Option<(u16, QuestionView)> {
    match parse_packet(buf, 0) {
        Ok((p, _)) => if p.questions.len() > 0 {
            Some((p.header.id, p.questions[0]))
        } else {
            None
        },
        Err(_) => None,
    }
}

/// Makes `response` ready to send to the client of query `id`.
pub fn finish_response(response: DnsPacket, id: u16) -> (r: DnsPacket)
    ensures
        r@ == finished(response@, id),
{
    let mut response = response;
    response.header.id = id;
    response.header.recursion_available = true;
    response.header.query_response = true;
    response
}

/// The response to a malformed query with id `id`: FORMERR, and nothing forwarded.
pub fn formerr_response(id: u16) -> (r: DnsPacket)
    ensures
        r@ == formerr_view(id),
        r@.counts_match(),
{
    let mut response = DnsPacket::new();
    response.header.recursion_desired = true;
    response.header.response_code = ResponseCode::FORMERR;
    finish_response(response, id)
}

/// Decides what to do with the client datagram held from the start of `buf`: forward its
/// first question upstream, or, when it does not decode or asks nothing, answer FORMERR
/// with its id.
pub fn on_query(buf: &mut DnsBuffer) -> (r: Exchange)
    ensures
        final(buf).buf@ == old(buf).buf@,
        match first_question(old(buf).buf@) {
            Some((id, q)) => r matches Exchange::Forward { id: rid, query } && rid == id && query@
                == forward_view(id, q) && query@.counts_match(),
            None => r matches Exchange::Reply(response) && response@ == formerr_view(u16_at(old(buf).buf@, 0))
                && response@.counts_match(),
        },
{
    buf.pos = 0;
    let id = match buf.get_u16(0) {
        Ok(v) => v,
        Err(_) => 0,
    };
    let mut query = DnsPacket::new();
    match query.read(buf) {
        Ok(()) => {
            if query.questions.len() > 0 {
                let question: DnsQuestion = query.questions.remove(0);
                let mut forward = DnsPacket::new();
                forward.header.id = id;
                forward.header.recursion_desired = true;
                forward.header.question_count = 1;
                forward.questions.push(question);
                assert(forward@.questions =~= seq![question@]);
                Exchange::Forward { id, query: forward }
            } else {
                Exchange::Reply(formerr_response(id))
            }
        },
        Err(_) => Exchange::Reply(formerr_response(id)),
    }
}

} // verus!
