//! The bootstrap resolver: the one query that finds the addresses of an
//! upstream that is named by its host name, and what is made of the reply.
//! Sending and receiving is left to the caller.

use crate::dns::buf::{lemma_overwrite_reads, window, Buf, BUF_LEN};
use crate::dns::header::Header;
use crate::dns::packet::{
    counted, packet_at, packet_error, packet_wire, views, Packet, PacketView,
};
use crate::dns::question::{Query, Question, QuestionView};
use crate::dns::record::{AnswerView, Record, RecordView};
use crate::error::DnsError;
use vstd::prelude::*;
use vstd::slice::slice_to_vec;

verus! {

/// The number of seconds that a reply is waited for before the query is
/// sent again.
pub const RETRY_SECS: u64 = 2;

/// How often the query is sent again before the resolver gives up.
pub const MAX_RETRIES: u32 = 10;

/// An IP address: the four octets of an IPv4 address or the eight groups of
/// an IPv6 address.
#[derive(Clone, Copy, Debug, PartialEq, Eq)]
pub enum Address {
    V4([u8; 4]),
    V6([u16; 8]),
}

/// An address and a port.
#[derive(Clone, Copy, Debug, PartialEq, Eq)]
pub struct Endpoint {
    pub addr: Address,
    pub port: u16,
}

/// What an [`Address`] holds.
pub enum AddressView {
    V4(Seq<u8>),
    V6(Seq<u16>),
}

/// What an [`Endpoint`] holds.
pub struct EndpointView {
    pub addr: AddressView,
    pub port: u16,
}

impl View for Endpoint {
    type V = EndpointView;

    open spec fn view(&self) -> EndpointView {
        EndpointView {
            addr: match self.addr {
                Address::V4(octets) => AddressView::V4(octets@),
                Address::V6(groups) => AddressView::V6(groups@),
            },
            port: self.port,
        }
    }
}

/// The packet that asks for the addresses of `hostname`: a header of zeros
/// with a count of one question, and the question for the A records of the
/// name.
pub open spec fn query_packet(hostname: Seq<char>) -> PacketView {
    let asked = PacketView {
        header: Header::spec_new(),
        questions: seq![QuestionView { name: hostname, qtype: Query::A }],
        answers: Seq::empty(),
        authorities: Seq::empty(),
        resources: Seq::empty(),
    };
    PacketView { header: counted(asked), ..asked }
}

/// The endpoints that the first `n` records of `answers` name, in their
/// order: one for each A and each AAAA record, with `port`. Records of
/// other types name none.
pub open spec fn endpoints(answers: Seq<AnswerView>, n: int, port: u16) -> Seq<EndpointView>
    decreases n,
{
    if n <= 0 {
        Seq::empty()
    } else {
        let before = endpoints(answers, n - 1, port);
        match answers[n - 1].record {
            RecordView::A { addr } => before.push(
                EndpointView { addr: AddressView::V4(addr), port },
            ),
            RecordView::AAAA { addr } => before.push(
                EndpointView { addr: AddressView::V6(addr), port },
            ),
            _ => before,
        }
    }
}

/// The bytes of the query for the addresses of `hostname`. It fails where
/// the name cannot be written: with `InvalidLabel` for a label of more
/// than 63 bytes, with `BufferOverflow` for a name that does not fit.
pub fn resolve_query(hostname: &str) -> (r: Result<Vec<u8>, DnsError>)
    ensures
        match packet_error(query_packet(hostname@), BUF_LEN as int) {
            None => r is Ok && r->Ok_0@ == packet_wire(query_packet(hostname@)),
            Some(e) => r is Err && r->Err_0 == e,
        },
        r is Ok ==> r->Ok_0@.len() <= BUF_LEN,
{
    let mut storage = [0u8; BUF_LEN];
    let ghost blank = storage@;
    let mut dns_buf = Buf::new(&mut storage);
    let mut dns_packet = Packet::new_ref();
    dns_packet.questions.push(Question::new(hostname.to_owned(), Query::A));
    proof {
        assert(dns_packet@.questions =~= query_packet(hostname@).questions);
        assert(dns_packet@.answers =~= query_packet(hostname@).answers);
        assert(dns_packet@.authorities =~= query_packet(hostname@).authorities);
        assert(dns_packet@.resources =~= query_packet(hostname@).resources);
    }
    match dns_packet.write(&mut dns_buf) {
        Ok(_) => {
            proof {
                lemma_overwrite_reads(blank, 0, packet_wire(query_packet(hostname@)));
            }
            Ok(slice_to_vec(dns_buf.as_slice()))
        },
        Err(e) => Err(e),
    }
}

/// The endpoints that the reply in `buf` names, each with `port`: one for
/// each A and each AAAA record of its answer section, in their order. It
/// fails where the reply cannot be read.
pub fn resolved(buf: &mut [u8], port: u16) -> (r: Result<Vec<Endpoint>, DnsError>)
    ensures
        final(buf)@ == old(buf)@,
        match packet_at(old(buf)@, window(old(buf)@.len()), 0, true) {
            Ok((reply, _)) => r is Ok && views(r->Ok_0@) == endpoints(
                reply.answers,
                reply.answers.len() as int,
                port,
            ),
            Err(e) => r is Err && r->Err_0 == e,
        },
{
    let mut dns_packet = Packet::new();
    let mut dns_buf = Buf::new(buf);
    dns_packet.read(&mut dns_buf)?;
    let ghost answers = views(dns_packet.answers@);
    proof {
        assert(Seq::<AnswerView>::empty() + answers =~= answers);
    }
    let mut out: Vec<Endpoint> = Vec::new();
    let n = dns_packet.answers.len();
    let mut i: usize = 0;
    assert(views(out@) =~= endpoints(answers, 0, port));
    while i < n
        invariant
            i <= n,
            n == dns_packet.answers@.len(),
            answers == views(dns_packet.answers@),
            views(out@) == endpoints(answers, i as int, port),
        decreases n - i,
    {
        let ghost before = views(out@);
        match dns_packet.answers[i].record() {
            Record::A { addr } => {
                out.push(Endpoint { addr: Address::V4(*addr), port });
                assert(views(out@) =~= before.push(
                    EndpointView { addr: AddressView::V4(addr@), port },
                ));
            },
            Record::AAAA { addr } => {
                out.push(Endpoint { addr: Address::V6(*addr), port });
                assert(views(out@) =~= before.push(
                    EndpointView { addr: AddressView::V6(addr@), port },
                ));
            },
            _ => {},
        }
        i += 1;
    }
    Ok(out)
}

/// What follows when no reply has come in time after `retries` repeats of
/// the query: the number of repeats with which the query is sent once more,
/// or `None` after the last of them, when the resolver gives up.
pub fn after_timeout(retries: u32) -> (r: Option<u32>)
    ensures
        r == if retries < MAX_RETRIES {
            Some((retries + 1) as u32)
        } else {
            None
        },
{
    if retries < MAX_RETRIES {
        Some(retries + 1)
    } else {
        None
    }
}

} // verus!
