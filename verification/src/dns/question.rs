//! Query types and the entries of the question section.

use crate::dns::buf::{
    be16, be16_bytes, first_error, fixed_error, lemma_written_then, written, Buf,
};
use crate::dns::name::{name_end, name_error, name_text, name_wire, MAX_JUMPS};
use crate::error::DnsError;
use vstd::prelude::*;
use vstd::std_specs::convert::FromSpecImpl;
use vstd::string::StringExecFns;
use vstd::utf8::encode_utf8;

verus! {

/// The type of a query or of a record.
#[derive(Copy, Clone, Debug, PartialEq, Eq, Hash, Structural)]
#[allow(clippy::upper_case_acronyms)]
pub enum Query {
    UNKNOWN(u16),
    A,
    NS,
    CNAME,
    MX,
    AAAA,
}

impl Query {
    /// The number that stands for this type on the wire.
    pub open spec fn spec_num(self) -> u16 {
        match self {
            Query::UNKNOWN(x) => x,
            Query::A => 1,
            Query::NS => 2,
            Query::CNAME => 5,
            Query::MX => 15,
            Query::AAAA => 28,
        }
    }

    /// The type that `num` stands for.
    pub open spec fn spec_from(num: u16) -> Query {
        if num == 1 {
            Query::A
        } else if num == 2 {
            Query::NS
        } else if num == 5 {
            Query::CNAME
        } else if num == 15 {
            Query::MX
        } else if num == 28 {
            Query::AAAA
        } else {
            Query::UNKNOWN(num)
        }
    }

    /// `UNKNOWN` holds no number that has a type of its own.
    pub open spec fn canonical(self) -> bool {
        Query::spec_from(self.spec_num()) == self
    }

    /// The number of a type stands for that type, but for an `UNKNOWN` that
    /// holds the number of another.
    pub proof fn lemma_num_round_trip(self)
        ensures
            self.canonical() <==> !(self matches Query::UNKNOWN(x) && (x == 1 || x == 2 || x == 5
                || x == 15 || x == 28)),
            Query::spec_from(self.spec_num()).spec_num() == self.spec_num(),
    {
    }
}

impl From<Query> for u16 {
    fn from(val: Query) -> (num: Self) {
        match val {
            Query::UNKNOWN(x) => x,
            Query::A => 1,
            Query::NS => 2,
            Query::CNAME => 5,
            Query::MX => 15,
            Query::AAAA => 28,
        }
    }
}

impl FromSpecImpl<Query> for u16 {
    open spec fn obeys_from_spec() -> bool {
        true
    }

    open spec fn from_spec(val: Query) -> Self {
        val.spec_num()
    }
}

impl From<u16> for Query {
    fn from(val: u16) -> (query: Self) {
        match val {
            1 => Query::A,
            2 => Query::NS,
            5 => Query::CNAME,
            15 => Query::MX,
            28 => Query::AAAA,
            v => Query::UNKNOWN(v),
        }
    }
}

impl FromSpecImpl<u16> for Query {
    open spec fn obeys_from_spec() -> bool {
        true
    }

    open spec fn from_spec(val: u16) -> Self {
        Query::spec_from(val)
    }
}

/// One entry of the question section. The class is not kept: it is written
/// as IN and ignored when read.
#[derive(Clone, Debug, PartialEq, Eq, Hash)]
pub struct Question {
    pub name: String,
    pub qtype: Query,
}

/// What a [`Question`] holds.
pub struct QuestionView {
    pub name: Seq<char>,
    pub qtype: Query,
}

impl View for Question {
    type V = QuestionView;

    open spec fn view(&self) -> QuestionView {
        QuestionView { name: self.name@, qtype: self.qtype }
    }
}

/// The number of bytes behind the name of a question: type and class.
pub const QUESTION_TAIL: usize = 4;

/// The wire form of a question: the name, the type, and class IN.
pub open spec fn question_wire(q: QuestionView) -> Seq<u8> {
    name_wire(encode_utf8(q.name)) + be16_bytes(q.qtype.spec_num()) + be16_bytes(1)
}

/// The error that ends the writing of `q` into `room` bytes, if there is
/// one.
pub open spec fn question_error(q: QuestionView, room: int) -> Option<DnsError> {
    first_error(
        name_error(encode_utf8(q.name), room),
        fixed_error(QUESTION_TAIL as int, room - name_wire(encode_utf8(q.name)).len()),
    )
}

/// The question that starts at offset `pos` of `b`, and the offset behind
/// it.
pub open spec fn question_at(b: Seq<u8>, limit: int, pos: int) -> Result<
    (QuestionView, int),
    DnsError,
> {
    match name_text(b, limit, pos, MAX_JUMPS as nat, true) {
        Err(e) => Err(e),
        Ok(name) => {
            let p = name_end(b, limit, pos);
            if p + QUESTION_TAIL > limit {
                Err(DnsError::BufferOverflow)
            } else {
                Ok((QuestionView { name, qtype: Query::spec_from(be16(b[p], b[p + 1])) }, p + 4))
            }
        },
    }
}

/// Reads the name and the type of the question under the cursor, and passes
/// over its class.
fn read_parts(buf: &mut Buf) -> (r: Result<(String, Query), DnsError>)
    requires
        old(buf).wf(),
    ensures
        final(final(buf).buf)@ == final(old(buf).buf)@,
        final(buf).wf(),
        final(buf).bytes() == old(buf).bytes(),
        match question_at(old(buf).bytes(), old(buf).limit(), old(buf).pos as int) {
            Ok((q, next)) => r is Ok && r->Ok_0.0@ == q.name && r->Ok_0.1 == q.qtype && final(buf).pos == next,
            Err(e) => r is Err && r->Err_0 == e,
        },
{
    let mut name = String::new();
    buf.read_qname(&mut name)?;
    let num = buf.read_u16()?;
    let _ = buf.read_u16()?;
    assert(Seq::<char>::empty() + name@ =~= name@);
    Ok((name, Query::from(num)))
}

impl Question {
    /// A question for `name` of type `qtype`.
    pub fn new(name: String, qtype: Query) -> (q: Self)
        ensures
            q.name == name,
            q.qtype == qtype,
    {
        Self { name, qtype }
    }

    /// Reads the question under the cursor: its name is appended to
    /// `self.name`, its type replaces `self.qtype`. Where it cannot be read,
    /// `self` and the cursor stay as they were.
    pub fn read(&mut self, buf: &mut Buf) -> (r: Result<(), DnsError>)
        requires
            old(buf).wf(),
        ensures
            final(final(buf).buf)@ == final(old(buf).buf)@,
            final(buf).wf(),
            final(buf).bytes() == old(buf).bytes(),
            match question_at(old(buf).bytes(), old(buf).limit(), old(buf).pos as int) {
                Ok((q, next)) => r is Ok && final(self)@ == (QuestionView {
                    name: old(self)@.name + q.name,
                    qtype: q.qtype,
                }) && final(buf).pos == next,
                Err(e) => r == Err::<(), DnsError>(e) && final(self)@ == old(self)@ && final(buf).pos == old(buf).pos,
            },
    {
        let start = buf.pos;
        match read_parts(buf) {
            Ok((name, qtype)) => {
                self.name.append(name.as_str());
                self.qtype = qtype;
                Ok(())
            },
            Err(e) => {
                buf.seek(start);
                Err(e)
            },
        }
    }

    /// Writes the question under the cursor.
    pub fn write(&self, buf: &mut Buf) -> (r: Result<(), DnsError>)
        requires
            old(buf).wf(),
        ensures
            final(final(buf).buf)@ == final(old(buf).buf)@,
            final(buf).wf(),
            written(
                old(buf).bytes(),
                old(buf).pos as int,
                final(buf).bytes(),
                final(buf).pos as int,
                r,
                question_wire(self@),
                question_error(self@, old(buf).limit() - old(buf).pos),
                old(buf).limit() - old(buf).pos,
            ),
    {
        let ghost b0 = buf.bytes();
        let ghost at = buf.pos as int;
        let ghost room = buf.limit() - buf.pos;
        let ghost w1 = name_wire(encode_utf8(self.name@));
        let num: u16 = self.qtype.into();
        buf.write_qname(self.name.as_str())?;
        let ghost b1 = buf.bytes();
        let r = buf.write_u16(num);
        proof {
            lemma_written_then(
                b0,
                at,
                b1,
                at + w1.len(),
                w1,
                buf.bytes(),
                buf.pos as int,
                r,
                be16_bytes(num),
                fixed_error(2, room - w1.len()),
                room,
            );
        }
        r?;
        let ghost b2 = buf.bytes();
        let r = buf.write_u16(1);
        proof {
            lemma_written_then(
                b0,
                at,
                b2,
                at + w1.len() + 2,
                w1 + be16_bytes(num),
                buf.bytes(),
                buf.pos as int,
                r,
                be16_bytes(1),
                fixed_error(2, room - w1.len() - 2),
                room,
            );
        }
        r
    }
}

} // verus!
