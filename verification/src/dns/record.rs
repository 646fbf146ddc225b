//! Resource records: the entries of the answer, authority and additional
//! sections.

use crate::dns::buf::{
    be16, be16_bytes, be32, be32_bytes, first_error, fixed_error, lemma_overwrite_again,
    lemma_overwrite_nothing, lemma_written_then, written, Buf,
};
use crate::dns::name::{name_end, name_error, name_text, name_wire, MAX_JUMPS};
use crate::dns::question::Query;
use crate::error::DnsError;
use vstd::prelude::*;
use vstd::utf8::encode_utf8;

verus! {

/// The payload of a resource record.
#[derive(Clone, Debug, PartialEq, Eq, PartialOrd, Ord, Hash)]
#[allow(clippy::upper_case_acronyms)]
#[allow(inconsistent_fields)]
pub enum Record {
    /// A record of a type that is not read: its type and the length of its
    /// data, which is skipped.
    UNKNOWN { qtype: u16, data_len: u16 },
    /// The four octets of an IPv4 address.
    A { addr: [u8; 4] },
    NS { host: String },
    CNAME { host: String },
    MX { priority: u16, host: String },
    /// The eight groups of an IPv6 address.
    AAAA { addr: [u16; 8] },
}

/// What a [`Record`] holds.
#[allow(clippy::upper_case_acronyms)]
#[allow(inconsistent_fields)]
pub enum RecordView {
    UNKNOWN { qtype: u16, data_len: u16 },
    A { addr: Seq<u8> },
    NS { host: Seq<char> },
    CNAME { host: Seq<char> },
    MX { priority: u16, host: Seq<char> },
    AAAA { addr: Seq<u16> },
}

impl View for Record {
    type V = RecordView;

    open spec fn view(&self) -> RecordView {
        match *self {
            Record::UNKNOWN { qtype, data_len } => RecordView::UNKNOWN { qtype, data_len },
            Record::A { addr } => RecordView::A { addr: addr@ },
            Record::NS { host } => RecordView::NS { host: host@ },
            Record::CNAME { host } => RecordView::CNAME { host: host@ },
            Record::MX { priority, host } => RecordView::MX { priority, host: host@ },
            Record::AAAA { addr } => RecordView::AAAA { addr: addr@ },
        }
    }
}

/// A resource record: the name it is for, how long it may be kept, and its
/// payload.
#[derive(Clone, Debug, PartialEq, Eq, PartialOrd, Ord, Hash)]
pub struct Answer {
    pub domain: String,
    pub ttl: u32,
    pub record: Record,
}

/// What an [`Answer`] holds.
pub struct AnswerView {
    pub domain: Seq<char>,
    pub ttl: u32,
    pub record: RecordView,
}

impl View for Answer {
    type V = AnswerView;

    open spec fn view(&self) -> AnswerView {
        AnswerView { domain: self.domain@, ttl: self.ttl, record: self.record@ }
    }
}

/// The number of bytes between the name of a record and its data: type,
/// class, time to live and the length of the data.
pub const RECORD_FIXED: usize = 10;

/// The eight groups of the sixteen bytes from offset `p` of `b` on.
pub open spec fn groups_at(b: Seq<u8>, p: int) -> Seq<u16> {
    Seq::new(8, |i: int| be16(b[p + 2 * i], b[p + 2 * i + 1]))
}

/// The sixteen bytes of eight groups, in network order.
pub open spec fn groups_wire(groups: Seq<u16>) -> Seq<u8> {
    Seq::new(
        16,
        |i: int|
            if i % 2 == 0 {
                (groups[i / 2] / 256) as u8
            } else {
                (groups[i / 2] % 256) as u8
            },
    )
}

/// The payload of a record of type number `qtype` whose data starts at
/// offset `p` of `b`, and the offset behind it.
pub open spec fn rdata_at(b: Seq<u8>, limit: int, p: int, qtype: u16, data_len: u16) -> Result<
    (RecordView, int),
    DnsError,
> {
    match Query::spec_from(qtype) {
        Query::A => if p + 4 > limit {
            Err(DnsError::BufferOverflow)
        } else {
            Ok((RecordView::A { addr: b.subrange(p, p + 4) }, p + 4))
        },
        Query::AAAA => if p + 16 > limit {
            Err(DnsError::BufferOverflow)
        } else {
            Ok((RecordView::AAAA { addr: groups_at(b, p) }, p + 16))
        },
        Query::NS => match name_text(b, limit, p, MAX_JUMPS as nat, true) {
            Err(e) => Err(e),
            Ok(host) => Ok((RecordView::NS { host }, name_end(b, limit, p))),
        },
        Query::CNAME => match name_text(b, limit, p, MAX_JUMPS as nat, true) {
            Err(e) => Err(e),
            Ok(host) => Ok((RecordView::CNAME { host }, name_end(b, limit, p))),
        },
        Query::MX => if p + 2 > limit {
            Err(DnsError::BufferOverflow)
        } else {
            match name_text(b, limit, p + 2, MAX_JUMPS as nat, true) {
                Err(e) => Err(e),
                Ok(host) => Ok(
                    (
                        RecordView::MX { priority: be16(b[p], b[p + 1]), host },
                        name_end(b, limit, p + 2),
                    ),
                ),
            }
        },
        Query::UNKNOWN(_) => if p + data_len > limit {
            Err(DnsError::BufferOverflow)
        } else {
            Ok((RecordView::UNKNOWN { qtype, data_len }, p + data_len))
        },
    }
}

/// The record that starts at offset `pos` of `b`, and the offset behind it.
/// The class is ignored, and so is the length of the data of a record whose
/// type is read.
pub open spec fn answer_at(b: Seq<u8>, limit: int, pos: int) -> Result<(AnswerView, int), DnsError> {
    match name_text(b, limit, pos, MAX_JUMPS as nat, true) {
        Err(e) => Err(e),
        Ok(domain) => {
            let p = name_end(b, limit, pos);
            if p + RECORD_FIXED > limit {
                Err(DnsError::BufferOverflow)
            } else {
                let qtype = be16(b[p], b[p + 1]);
                let ttl = be32(b[p + 4], b[p + 5], b[p + 6], b[p + 7]);
                let data_len = be16(b[p + 8], b[p + 9]);
                match rdata_at(b, limit, p + RECORD_FIXED, qtype, data_len) {
                    Err(e) => Err(e),
                    Ok((record, next)) => Ok((AnswerView { domain, ttl, record }, next)),
                }
            }
        },
    }
}

/// The wire form of what every written record starts with: the name, the
/// type, class IN and the time to live.
pub open spec fn head_wire(domain: Seq<char>, qtype: u16, ttl: u32) -> Seq<u8> {
    name_wire(encode_utf8(domain)) + be16_bytes(qtype) + be16_bytes(1) + be32_bytes(ttl)
}

/// The error that ends the writing of the head of a record, if there is one.
pub open spec fn head_error(domain: Seq<char>, room: int) -> Option<DnsError> {
    first_error(
        name_error(encode_utf8(domain), room),
        fixed_error(8, room - name_wire(encode_utf8(domain)).len()),
    )
}

/// The wire form of data that ends in a name: its length in two bytes,
/// `before` and the name.
pub open spec fn sized_name_wire(before: Seq<u8>, host: Seq<char>) -> Seq<u8> {
    be16_bytes((before.len() + name_wire(encode_utf8(host)).len()) as u16) + before + name_wire(
        encode_utf8(host),
    )
}

/// The error that ends the writing of data that ends in a name, if there is
/// one.
pub open spec fn sized_name_error(before: Seq<u8>, host: Seq<char>, room: int) -> Option<
    DnsError,
> {
    first_error(
        fixed_error(2 + before.len() as int, room),
        name_error(encode_utf8(host), room - 2 - before.len()),
    )
}

/// The wire form of the data of a record, behind its length. A record of
/// unknown type has none.
pub open spec fn rdata_wire(record: RecordView) -> Seq<u8> {
    match record {
        RecordView::UNKNOWN { .. } => Seq::empty(),
        RecordView::A { addr } => be16_bytes(4) + addr,
        RecordView::AAAA { addr } => be16_bytes(16) + groups_wire(addr),
        RecordView::NS { host } => sized_name_wire(Seq::empty(), host),
        RecordView::CNAME { host } => sized_name_wire(Seq::empty(), host),
        RecordView::MX { priority, host } => sized_name_wire(be16_bytes(priority), host),
    }
}

/// The error that ends the writing of the data of a record into `room`
/// bytes, if there is one.
pub open spec fn rdata_error(record: RecordView, room: int) -> Option<DnsError> {
    match record {
        RecordView::UNKNOWN { .. } => None,
        RecordView::A { .. } => fixed_error(6, room),
        RecordView::AAAA { .. } => fixed_error(18, room),
        RecordView::NS { host } => sized_name_error(Seq::empty(), host, room),
        RecordView::CNAME { host } => sized_name_error(Seq::empty(), host, room),
        RecordView::MX { priority, host } => sized_name_error(be16_bytes(priority), host, room),
    }
}

/// The number that a record's type is written as.
pub open spec fn record_type(record: RecordView) -> u16 {
    match record {
        RecordView::UNKNOWN { qtype, .. } => qtype,
        RecordView::A { .. } => 1,
        RecordView::NS { .. } => 2,
        RecordView::CNAME { .. } => 5,
        RecordView::MX { .. } => 15,
        RecordView::AAAA { .. } => 28,
    }
}

/// The wire form of a record. A record of unknown type is not written at
/// all.
pub open spec fn answer_wire(a: AnswerView) -> Seq<u8> {
    if a.record is UNKNOWN {
        Seq::empty()
    } else {
        head_wire(a.domain, record_type(a.record), a.ttl) + rdata_wire(a.record)
    }
}

/// The error that ends the writing of a record into `room` bytes, if there
/// is one.
pub open spec fn answer_error(a: AnswerView, room: int) -> Option<DnsError> {
    if a.record is UNKNOWN {
        None
    } else {
        first_error(
            head_error(a.domain, room),
            rdata_error(a.record, room - head_wire(a.domain, record_type(a.record), a.ttl).len()),
        )
    }
}

/// Writes what every record starts with.
fn write_head(buf: &mut Buf, domain: &str, qtype: u16, ttl: u32) -> (r: Result<(), DnsError>)
    requires
        old(buf).wf(),
    ensures
        final(final(buf).buf)@ == final(old(buf).buf)@,
        final(buf).wf(),
        written(
            old(buf).bytes(),
            old(buf).pos as int,
            final(buf).bytes(),
            final(buf).pos as int,
            r,
            head_wire(domain@, qtype, ttl),
            head_error(domain@, old(buf).limit() - old(buf).pos),
            old(buf).limit() - old(buf).pos,
        ),
{
    let ghost b0 = buf.bytes();
    let ghost at = buf.pos as int;
    let ghost room = buf.limit() - buf.pos;
    let ghost w1 = name_wire(encode_utf8(domain@));
    buf.write_qname(domain)?;
    let ghost b1 = buf.bytes();
    let r = buf.write_u16(qtype);
    proof {
        lemma_written_then(
            b0,
            at,
            b1,
            at + w1.len(),
            w1,
            buf.bytes(),
            buf.pos as int,
            r,
            be16_bytes(qtype),
            fixed_error(2, room - w1.len()),
            room,
        );
    }
    r?;
    let ghost b2 = buf.bytes();
    let ghost w2 = w1 + be16_bytes(qtype);
    let r = buf.write_u16(1);
    proof {
        lemma_written_then(
            b0,
            at,
            b2,
            at + w2.len(),
            w2,
            buf.bytes(),
            buf.pos as int,
            r,
            be16_bytes(1),
            fixed_error(2, room - w2.len()),
            room,
        );
    }
    r?;
    let ghost b3 = buf.bytes();
    let ghost w3 = w2 + be16_bytes(1);
    let r = buf.write_u32(ttl);
    proof {
        lemma_written_then(
            b0,
            at,
            b3,
            at + w3.len(),
            w3,
            buf.bytes(),
            buf.pos as int,
            r,
            be32_bytes(ttl),
            fixed_error(4, room - w3.len()),
            room,
        );
    }
    r
}

/// Writes data that ends in a name: two bytes are left free for the length,
/// `priority` and the name are written, and the length is filled in from
/// how far the cursor has moved.
fn write_sized_name(buf: &mut Buf, priority: Option<u16>, host: &str) -> (r: Result<(), DnsError>)
    requires
        old(buf).wf(),
    ensures
        final(final(buf).buf)@ == final(old(buf).buf)@,
        final(buf).wf(),
        written(
            old(buf).bytes(),
            old(buf).pos as int,
            final(buf).bytes(),
            final(buf).pos as int,
            r,
            sized_name_wire(before_name(priority), host@),
            sized_name_error(before_name(priority), host@, old(buf).limit() - old(buf).pos),
            old(buf).limit() - old(buf).pos,
        ),
{
    let ghost b0 = buf.bytes();
    let ghost at = buf.pos as int;
    let ghost room = buf.limit() - buf.pos;
    let ghost before = before_name(priority);
    let ghost name = name_wire(encode_utf8(host@));
    let pos = buf.pos;
    buf.write_u16(0)?;
    let ghost w1 = be16_bytes(0);
    if let Some(p) = priority {
        let ghost b1 = buf.bytes();
        let r = buf.write_u16(p);
        proof {
            lemma_written_then(
                b0,
                at,
                b1,
                at + 2,
                w1,
                buf.bytes(),
                buf.pos as int,
                r,
                be16_bytes(p),
                fixed_error(2, room - 2),
                room,
            );
        }
        r?;
    }
    let ghost b2 = buf.bytes();
    let ghost w2 = w1 + before;
    assert(written(b0, at, b2, at + w2.len(), Ok(()), w2, None, room)) by {
        if priority is None {
            assert(w2 =~= w1);
        }
    }
    let r = buf.write_qname(host);
    proof {
        lemma_written_then(
            b0,
            at,
            b2,
            at + w2.len(),
            w2,
            buf.bytes(),
            buf.pos as int,
            r,
            name,
            name_error(encode_utf8(host@), room - w2.len()),
            room,
        );
    }
    r?;
    let size = buf.pos - (pos + 2);
    buf.set_u16(pos, size as u16);
    proof {
        lemma_overwrite_again(b0, at, be16_bytes(0), before + name, be16_bytes(size as u16));
        assert(w2 + name =~= be16_bytes(0) + (before + name));
        assert(be16_bytes(size as u16) + (before + name) =~= sized_name_wire(before, host@));
    }
    Ok(())
}

/// What stands between the length of the data and the name that ends it:
/// the priority of an MX record, or nothing.
pub open spec fn before_name(priority: Option<u16>) -> Seq<u8> {
    match priority {
        Some(p) => be16_bytes(p),
        None => Seq::empty(),
    }
}

/// Reads the record under the cursor: its name, its type, its time to
/// live, and the data that its type asks for.
fn read_record(buf: &mut Buf) -> (r: Result<Answer, DnsError>)
    requires
        old(buf).wf(),
    ensures
        final(final(buf).buf)@ == final(old(buf).buf)@,
        final(buf).wf(),
        final(buf).bytes() == old(buf).bytes(),
        match answer_at(old(buf).bytes(), old(buf).limit(), old(buf).pos as int) {
            Ok((a, next)) => r is Ok && r->Ok_0@ == a && final(buf).pos == next,
            Err(e) => r is Err && r->Err_0 == e,
        },
{
    let ghost b = buf.bytes();
    let mut domain = String::new();
    buf.read_qname(&mut domain)?;
    assert(Seq::<char>::empty() + domain@ =~= domain@);

    let qtype_num = buf.read_u16()?;
    let qtype = Query::from(qtype_num);
    let _ = buf.read_u16()?;
    let ttl = buf.read_u32()?;
    let data_len = buf.read_u16()?;
    let ghost d = buf.pos as int;

    let record = match qtype {
        Query::A => {
            if buf.end() - buf.pos < 4 {
                return Err(DnsError::BufferOverflow);
            }
            let a0 = buf.read()?;
            let a1 = buf.read()?;
            let a2 = buf.read()?;
            let a3 = buf.read()?;
            let addr = [a0, a1, a2, a3];
            assert(addr@ =~= b.subrange(d, d + 4));
            Record::A { addr }
        },
        Query::AAAA => {
            if buf.end() - buf.pos < 16 {
                return Err(DnsError::BufferOverflow);
            }
            let g0 = buf.read_u16()?;
            let g1 = buf.read_u16()?;
            let g2 = buf.read_u16()?;
            let g3 = buf.read_u16()?;
            let g4 = buf.read_u16()?;
            let g5 = buf.read_u16()?;
            let g6 = buf.read_u16()?;
            let g7 = buf.read_u16()?;
            let addr = [g0, g1, g2, g3, g4, g5, g6, g7];
            assert(addr@ =~= groups_at(b, d));
            Record::AAAA { addr }
        },
        Query::NS => {
            let mut host = String::new();
            buf.read_qname(&mut host)?;
            assert(Seq::<char>::empty() + host@ =~= host@);
            Record::NS { host }
        },
        Query::CNAME => {
            let mut host = String::new();
            buf.read_qname(&mut host)?;
            assert(Seq::<char>::empty() + host@ =~= host@);
            Record::CNAME { host }
        },
        Query::MX => {
            let priority = buf.read_u16()?;
            let mut host = String::new();
            buf.read_qname(&mut host)?;
            assert(Seq::<char>::empty() + host@ =~= host@);
            Record::MX { priority, host }
        },
        Query::UNKNOWN(_) => {
            if buf.end() - buf.pos < data_len as usize {
                return Err(DnsError::BufferOverflow);
            }
            buf.step(data_len as usize);
            Record::UNKNOWN { qtype: qtype_num, data_len }
        },
    };

    Ok(Answer { domain, ttl, record })
}

impl Answer {
    /// A record for `domain`.
    pub fn new(domain: String, ttl: u32, record: Record) -> (a: Self)
        ensures
            a.domain == domain,
            a.ttl == ttl,
            a.record == record,
    {
        Answer { domain, ttl, record }
    }

    /// The number of seconds for which the record may be kept.
    pub fn ttl(&self) -> (ttl: u32)
        ensures
            ttl == self.ttl,
    {
        self.ttl
    }

    /// The payload.
    pub fn record(&self) -> (record: &Record)
        ensures
            *record == self.record,
    {
        &self.record
    }

    /// Reads the record under the cursor. Where it cannot be read, the
    /// cursor stays as it was.
    pub fn read(buf: &mut Buf) -> (r: Result<Self, DnsError>)
        requires
            old(buf).wf(),
        ensures
            final(final(buf).buf)@ == final(old(buf).buf)@,
            final(buf).wf(),
            final(buf).bytes() == old(buf).bytes(),
            match answer_at(old(buf).bytes(), old(buf).limit(), old(buf).pos as int) {
                Ok((a, next)) => r is Ok && r->Ok_0@ == a && final(buf).pos == next,
                Err(e) => r is Err && r->Err_0 == e && final(buf).pos == old(buf).pos,
            },
    {
        let start = buf.pos;
        match read_record(buf) {
            Ok(answer) => Ok(answer),
            Err(e) => {
                buf.seek(start);
                Err(e)
            },
        }
    }

    /// Writes the record under the cursor and returns the number of bytes
    /// it took. A record of unknown type is passed over: nothing is written
    /// for it.
    pub fn write(&self, buf: &mut Buf) -> (r: Result<usize, DnsError>)
        requires
            old(buf).wf(),
        ensures
            final(final(buf).buf)@ == final(old(buf).buf)@,
            final(buf).wf(),
            written(
                old(buf).bytes(),
                old(buf).pos as int,
                final(buf).bytes(),
                final(buf).pos as int,
                match r {
                    Ok(_) => Ok(()),
                    Err(e) => Err(e),
                },
                answer_wire(self@),
                answer_error(self@, old(buf).limit() - old(buf).pos),
                old(buf).limit() - old(buf).pos,
            ),
            r is Ok ==> r->Ok_0 == answer_wire(self@).len(),
    {
        let start_pos = buf.pos;
        let ghost b0 = buf.bytes();
        let ghost at = buf.pos as int;
        let ghost room = buf.limit() - buf.pos;
        let ghost head = head_wire(self.domain@, record_type(self.record@), self.ttl);

        let domain = self.domain.as_str();
        let ttl = self.ttl;
        match &self.record {
            Record::A { addr } => {
                write_head(buf, domain, Query::A.into(), ttl)?;
                let ghost b1 = buf.bytes();
                let r = write_a(buf, addr);
                proof {
                    lemma_written_then(
                        b0,
                        at,
                        b1,
                        at + head.len(),
                        head,
                        buf.bytes(),
                        buf.pos as int,
                        r,
                        rdata_wire(self.record@),
                        rdata_error(self.record@, room - head.len()),
                        room,
                    );
                }
                r?;
            },
            Record::NS { host } => {
                write_head(buf, domain, Query::NS.into(), ttl)?;
                let ghost b1 = buf.bytes();
                let r = write_sized_name(buf, None, host.as_str());
                proof {
                    lemma_written_then(
                        b0,
                        at,
                        b1,
                        at + head.len(),
                        head,
                        buf.bytes(),
                        buf.pos as int,
                        r,
                        rdata_wire(self.record@),
                        rdata_error(self.record@, room - head.len()),
                        room,
                    );
                }
                r?;
            },
            Record::CNAME { host } => {
                write_head(buf, domain, Query::CNAME.into(), ttl)?;
                let ghost b1 = buf.bytes();
                let r = write_sized_name(buf, None, host.as_str());
                proof {
                    lemma_written_then(
                        b0,
                        at,
                        b1,
                        at + head.len(),
                        head,
                        buf.bytes(),
                        buf.pos as int,
                        r,
                        rdata_wire(self.record@),
                        rdata_error(self.record@, room - head.len()),
                        room,
                    );
                }
                r?;
            },
            Record::MX { priority, host } => {
                write_head(buf, domain, Query::MX.into(), ttl)?;
                let ghost b1 = buf.bytes();
                let r = write_sized_name(buf, Some(*priority), host.as_str());
                proof {
                    lemma_written_then(
                        b0,
                        at,
                        b1,
                        at + head.len(),
                        head,
                        buf.bytes(),
                        buf.pos as int,
                        r,
                        rdata_wire(self.record@),
                        rdata_error(self.record@, room - head.len()),
                        room,
                    );
                }
                r?;
            },
            Record::AAAA { addr } => {
                write_head(buf, domain, Query::AAAA.into(), ttl)?;
                let ghost b1 = buf.bytes();
                let r = write_aaaa(buf, addr);
                proof {
                    lemma_written_then(
                        b0,
                        at,
                        b1,
                        at + head.len(),
                        head,
                        buf.bytes(),
                        buf.pos as int,
                        r,
                        rdata_wire(self.record@),
                        rdata_error(self.record@, room - head.len()),
                        room,
                    );
                }
                r?;
            },
            Record::UNKNOWN { .. } => {
                proof {
                    lemma_overwrite_nothing(b0, at);
                }
            },
        }

        Ok(buf.pos - start_pos)
    }
}

/// Writes the data of an A record: the length 4 and the four octets.
fn write_a(buf: &mut Buf, addr: &[u8; 4]) -> (r: Result<(), DnsError>)
    requires
        old(buf).wf(),
    ensures
        final(final(buf).buf)@ == final(old(buf).buf)@,
        final(buf).wf(),
        written(
            old(buf).bytes(),
            old(buf).pos as int,
            final(buf).bytes(),
            final(buf).pos as int,
            r,
            be16_bytes(4) + addr@,
            fixed_error(6, old(buf).limit() - old(buf).pos),
            old(buf).limit() - old(buf).pos,
        ),
{
    let ghost b0 = buf.bytes();
    let ghost at = buf.pos as int;
    let ghost room = buf.limit() - buf.pos;
    let ghost done = be16_bytes(4);
    buf.write_u16(4)?;
    let mut i: usize = 0;
    while i < 4
        invariant
            final(buf.buf)@ == final(old(buf).buf)@,
            0 <= i <= 4,
            buf.wf(),
            buf.limit() - at == room,
            at == old(buf).pos,
            b0 == old(buf).bytes(),
            room == old(buf).limit() - old(buf).pos,
            at + done.len() <= b0.len(),
            done == be16_bytes(4) + addr@.subrange(0, i as int),
            written(b0, at, buf.bytes(), buf.pos as int, Ok(()), done, None, room),
        decreases 4 - i,
    {
        let ghost b1 = buf.bytes();
        let r = buf.write_u8(addr[i]);
        proof {
            lemma_written_then(
                b0,
                at,
                b1,
                at + done.len(),
                done,
                buf.bytes(),
                buf.pos as int,
                r,
                seq![addr@[i as int]],
                fixed_error(1, room - done.len()),
                room,
            );
            assert(done + seq![addr@[i as int]] =~= be16_bytes(4) + addr@.subrange(0, i + 1));
            done = done + seq![addr@[i as int]];
        }
        r?;
        i += 1;
    }
    assert(addr@.subrange(0, 4) =~= addr@);
    Ok(())
}

/// Writes the data of an AAAA record: the length 16 and the eight groups.
fn write_aaaa(buf: &mut Buf, addr: &[u16; 8]) -> (r: Result<(), DnsError>)
    requires
        old(buf).wf(),
    ensures
        final(final(buf).buf)@ == final(old(buf).buf)@,
        final(buf).wf(),
        written(
            old(buf).bytes(),
            old(buf).pos as int,
            final(buf).bytes(),
            final(buf).pos as int,
            r,
            be16_bytes(16) + groups_wire(addr@),
            fixed_error(18, old(buf).limit() - old(buf).pos),
            old(buf).limit() - old(buf).pos,
        ),
{
    let ghost b0 = buf.bytes();
    let ghost at = buf.pos as int;
    let ghost room = buf.limit() - buf.pos;
    let ghost done = be16_bytes(16);
    buf.write_u16(16)?;
    let mut i: usize = 0;
    while i < 8
        invariant
            final(buf.buf)@ == final(old(buf).buf)@,
            0 <= i <= 8,
            buf.wf(),
            buf.limit() - at == room,
            at == old(buf).pos,
            b0 == old(buf).bytes(),
            room == old(buf).limit() - old(buf).pos,
            at + done.len() <= b0.len(),
            done == be16_bytes(16) + groups_wire(addr@).subrange(0, 2 * i),
            written(b0, at, buf.bytes(), buf.pos as int, Ok(()), done, None, room),
        decreases 8 - i,
    {
        let ghost b1 = buf.bytes();
        let r = buf.write_u16(addr[i]);
        proof {
            lemma_written_then(
                b0,
                at,
                b1,
                at + done.len(),
                done,
                buf.bytes(),
                buf.pos as int,
                r,
                be16_bytes(addr@[i as int]),
                fixed_error(2, room - done.len()),
                room,
            );
            assert(done + be16_bytes(addr@[i as int]) =~= be16_bytes(16) + groups_wire(
                addr@,
            ).subrange(0, 2 * i + 2));
            done = done + be16_bytes(addr@[i as int]);
        }
        r?;
        i += 1;
    }
    assert(groups_wire(addr@).subrange(0, 16) =~= groups_wire(addr@));
    Ok(())
}

} // verus!
