//! The fixed twelve bytes at the head of every packet.

use crate::dns::buf::{be16, be16_bytes, fixed_error, lemma_written_then, written, Buf};
use crate::error::DnsError;
use vstd::prelude::*;
use vstd::std_specs::convert::FromSpecImpl;

verus! {

/// The number of bytes a header takes on the wire.
pub const HEADER_LEN: usize = 12;

/// The result code of a response.
#[derive(Copy, Clone, Debug, PartialEq, Eq, Structural)]
#[allow(clippy::upper_case_acronyms)]
pub enum ResultCode {
    NOERROR,
    FORMERR,
    SERVFAIL,
    NXDOMAIN,
    NOTIMP,
    REFUSED,
}

impl ResultCode {
    /// The number that stands for this code on the wire.
    pub open spec fn spec_code(self) -> u8 {
        match self {
            ResultCode::NOERROR => 0,
            ResultCode::FORMERR => 1,
            ResultCode::SERVFAIL => 2,
            ResultCode::NXDOMAIN => 3,
            ResultCode::NOTIMP => 4,
            ResultCode::REFUSED => 5,
        }
    }

    /// The code that `num` stands for; a number that stands for none is read
    /// as `NOERROR`.
    pub open spec fn spec_from(num: u8) -> ResultCode {
        if num == 1 {
            ResultCode::FORMERR
        } else if num == 2 {
            ResultCode::SERVFAIL
        } else if num == 3 {
            ResultCode::NXDOMAIN
        } else if num == 4 {
            ResultCode::NOTIMP
        } else if num == 5 {
            ResultCode::REFUSED
        } else {
            ResultCode::NOERROR
        }
    }

    /// The number that stands for this code on the wire.
    #[verifier::when_used_as_spec(spec_code)]
    pub fn code(self) -> (num: u8)
        ensures
            num == self.spec_code(),
    {
        match self {
            ResultCode::NOERROR => 0,
            ResultCode::FORMERR => 1,
            ResultCode::SERVFAIL => 2,
            ResultCode::NXDOMAIN => 3,
            ResultCode::NOTIMP => 4,
            ResultCode::REFUSED => 5,
        }
    }

    /// Every code is read back from its own number.
    pub proof fn lemma_code_round_trip(self)
        ensures
            ResultCode::spec_from(self.spec_code()) == self,
            self.spec_code() <= 5,
    {
    }
}

impl From<u8> for ResultCode {
    fn from(num: u8) -> (code: Self) {
        match num {
            1 => Self::FORMERR,
            2 => Self::SERVFAIL,
            3 => Self::NXDOMAIN,
            4 => Self::NOTIMP,
            5 => Self::REFUSED,
            _ => Self::NOERROR,
        }
    }
}

impl FromSpecImpl<u8> for ResultCode {
    open spec fn obeys_from_spec() -> bool {
        true
    }

    open spec fn from_spec(num: u8) -> Self {
        ResultCode::spec_from(num)
    }
}

/// The header of a packet.
#[derive(Copy, Clone, Debug, PartialEq, Eq, Structural)]
pub struct Header {
    pub id: u16,
    pub recursion_desired: bool,
    pub truncated_message: bool,
    pub authoritative_answer: bool,
    pub opcode: u8,
    pub response: bool,
    pub rescode: ResultCode,
    pub checking_disabled: bool,
    pub authed_data: bool,
    pub z: bool,
    pub recursion_available: bool,
    pub questions: u16,
    pub answers: u16,
    pub authoritative_entries: u16,
    pub resource_entries: u16,
}

/// One flag as a bit.
pub open spec fn bit(flag: bool) -> u8 {
    if flag {
        1
    } else {
        0
    }
}

/// The first byte of flags: recursion desired, truncated, authoritative, the
/// opcode in four bits, response.
pub open spec fn flags_hi(h: Header) -> u8 {
    bit(h.recursion_desired) | (bit(h.truncated_message) << 1) | (bit(h.authoritative_answer)
        << 2) | (h.opcode << 3) | (bit(h.response) << 7)
}

/// The second byte of flags: the result code in four bits, checking disabled,
/// authed data, z, recursion available.
pub open spec fn flags_lo(h: Header) -> u8 {
    h.rescode.spec_code() | (bit(h.checking_disabled) << 4) | (bit(h.authed_data) << 5) | (bit(
        h.z,
    ) << 6) | (bit(h.recursion_available) << 7)
}

/// The twelve bytes that stand for `h` on the wire.
pub open spec fn header_wire(h: Header) -> Seq<u8> {
    be16_bytes(h.id) + seq![flags_hi(h), flags_lo(h)] + be16_bytes(h.questions) + be16_bytes(
        h.answers,
    ) + be16_bytes(h.authoritative_entries) + be16_bytes(h.resource_entries)
}

/// The header that the twelve bytes of `bytes` from offset `at` on stand for.
pub open spec fn header_at(bytes: Seq<u8>, at: int) -> Header {
    let a = bytes[at + 2];
    let b = bytes[at + 3];
    Header {
        id: be16(bytes[at], bytes[at + 1]),
        recursion_desired: (a & 1) > 0,
        truncated_message: (a & 2) > 0,
        authoritative_answer: (a & 4) > 0,
        opcode: (a >> 3) & 0x0F,
        response: (a & 0x80) > 0,
        rescode: ResultCode::spec_from(b & 0x0F),
        checking_disabled: (b & 0x10) > 0,
        authed_data: (b & 0x20) > 0,
        z: (b & 0x40) > 0,
        recursion_available: (b & 0x80) > 0,
        questions: be16(bytes[at + 4], bytes[at + 5]),
        answers: be16(bytes[at + 6], bytes[at + 7]),
        authoritative_entries: be16(bytes[at + 8], bytes[at + 9]),
        resource_entries: be16(bytes[at + 10], bytes[at + 11]),
    }
}

/// Two bytes in network order are read back as the number they were written
/// for.
pub proof fn lemma_be16_round_trip(val: u16)
    ensures
        be16_bytes(val).len() == 2,
        be16(be16_bytes(val)[0], be16_bytes(val)[1]) == val,
{
}

fn flag(set: bool) -> (b: u8)
    ensures
        b == bit(set),
{
    if set {
        1
    } else {
        0
    }
}

impl Header {
    /// A header of zeros: a query with no entries.
    pub open spec fn spec_new() -> Header {
        Header {
            id: 0,
            recursion_desired: false,
            truncated_message: false,
            authoritative_answer: false,
            opcode: 0,
            response: false,
            rescode: ResultCode::NOERROR,
            checking_disabled: false,
            authed_data: false,
            z: false,
            recursion_available: false,
            questions: 0,
            answers: 0,
            authoritative_entries: 0,
            resource_entries: 0,
        }
    }

    /// A header of zeros: a query with no entries.
    #[verifier::when_used_as_spec(spec_new)]
    pub fn new() -> (h: Header)
        ensures
            h == Header::spec_new(),
    {
        Header {
            id: 0,
            recursion_desired: false,
            truncated_message: false,
            authoritative_answer: false,
            opcode: 0,
            response: false,
            rescode: ResultCode::NOERROR,
            checking_disabled: false,
            authed_data: false,
            z: false,
            recursion_available: false,
            questions: 0,
            answers: 0,
            authoritative_entries: 0,
            resource_entries: 0,
        }
    }

    /// Reads the twelve bytes under the cursor into `self`. Where fewer are
    /// left in the window, `self` and the cursor stay as they were.
    pub fn read(&mut self, buf: &mut Buf<'_>) -> (r: Result<(), DnsError>)
        requires
            old(buf).wf(),
        ensures
            final(final(buf).buf)@ == final(old(buf).buf)@,
            final(buf).wf(),
            final(buf).bytes() == old(buf).bytes(),
            r is Ok <==> old(buf).pos + HEADER_LEN <= old(buf).limit(),
            r is Err ==> r == Err::<(), DnsError>(DnsError::BufferOverflow) && *final(self) == *old(
                self,
            ) && final(buf).pos == old(buf).pos,
            r is Ok ==> *final(self) == header_at(old(buf).bytes(), old(buf).pos as int)
                && final(buf).pos == old(buf).pos + HEADER_LEN,
    {
        if buf.end() - buf.pos < HEADER_LEN {
            return Err(DnsError::BufferOverflow);
        }
        let id = buf.read_u16()?;
        let a = buf.read()?;
        let b = buf.read()?;
        let questions = buf.read_u16()?;
        let answers = buf.read_u16()?;
        let authoritative_entries = buf.read_u16()?;
        let resource_entries = buf.read_u16()?;

        self.id = id;
        self.recursion_desired = (a & 1) > 0;
        self.truncated_message = (a & 2) > 0;
        self.authoritative_answer = (a & 4) > 0;
        self.opcode = (a >> 3) & 0x0F;
        self.response = (a & 0x80) > 0;
        self.rescode = ResultCode::from(b & 0x0F);
        self.checking_disabled = (b & 0x10) > 0;
        self.authed_data = (b & 0x20) > 0;
        self.z = (b & 0x40) > 0;
        self.recursion_available = (b & 0x80) > 0;
        self.questions = questions;
        self.answers = answers;
        self.authoritative_entries = authoritative_entries;
        self.resource_entries = resource_entries;
        Ok(())
    }

    /// Writes the twelve bytes of `self` under the cursor. Where fewer fit
    /// into the window, the fields that fit are written before the call
    /// fails.
    pub fn write(&self, buf: &mut Buf<'_>) -> (r: Result<(), DnsError>)
        requires
            old(buf).wf(),
        ensures
            final(final(buf).buf)@ == final(old(buf).buf)@,
            final(buf).wf(),
            written(
                old(buf).bytes(),
                old(buf).pos as int,
                final(buf).bytes(),
                final(buf).pos as int,
                r,
                header_wire(*self),
                fixed_error(HEADER_LEN as int, old(buf).limit() - old(buf).pos),
                old(buf).limit() - old(buf).pos,
            ),
    {
        let ghost b0 = buf.bytes();
        let ghost at = buf.pos as int;
        let ghost room = buf.limit() - buf.pos;
        let hi = flag(self.recursion_desired) | (flag(self.truncated_message) << 1) | (flag(
            self.authoritative_answer,
        ) << 2) | (self.opcode << 3) | (flag(self.response) << 7);
        let lo = self.rescode.code() | (flag(self.checking_disabled) << 4) | (flag(
            self.authed_data,
        ) << 5) | (flag(self.z) << 6) | (flag(self.recursion_available) << 7);
        let ghost w1 = be16_bytes(self.id);
        let ghost w2 = w1 + seq![hi];
        let ghost w3 = w2 + seq![lo];
        let ghost w4 = w3 + be16_bytes(self.questions);
        let ghost w5 = w4 + be16_bytes(self.answers);
        let ghost w6 = w5 + be16_bytes(self.authoritative_entries);

        buf.write_u16(self.id)?;
        let ghost b1 = buf.bytes();
        let r = buf.write_u8(hi);
        proof {
            lemma_written_then(
                b0,
                at,
                b1,
                at + 2,
                w1,
                buf.bytes(),
                buf.pos as int,
                r,
                seq![hi],
                fixed_error(1, room - 2),
                room,
            );
        }
        r?;
        let ghost b2 = buf.bytes();
        let r = buf.write_u8(lo);
        proof {
            lemma_written_then(
                b0,
                at,
                b2,
                at + 3,
                w2,
                buf.bytes(),
                buf.pos as int,
                r,
                seq![lo],
                fixed_error(1, room - 3),
                room,
            );
        }
        r?;
        let ghost b3 = buf.bytes();
        let r = buf.write_u16(self.questions);
        proof {
            lemma_written_then(
                b0,
                at,
                b3,
                at + 4,
                w3,
                buf.bytes(),
                buf.pos as int,
                r,
                be16_bytes(self.questions),
                fixed_error(2, room - 4),
                room,
            );
        }
        r?;
        let ghost b4 = buf.bytes();
        let r = buf.write_u16(self.answers);
        proof {
            lemma_written_then(
                b0,
                at,
                b4,
                at + 6,
                w4,
                buf.bytes(),
                buf.pos as int,
                r,
                be16_bytes(self.answers),
                fixed_error(2, room - 6),
                room,
            );
        }
        r?;
        let ghost b5 = buf.bytes();
        let r = buf.write_u16(self.authoritative_entries);
        proof {
            lemma_written_then(
                b0,
                at,
                b5,
                at + 8,
                w5,
                buf.bytes(),
                buf.pos as int,
                r,
                be16_bytes(self.authoritative_entries),
                fixed_error(2, room - 8),
                room,
            );
        }
        r?;
        let ghost b6 = buf.bytes();
        let r = buf.write_u16(self.resource_entries);
        proof {
            lemma_written_then(
                b0,
                at,
                b6,
                at + 10,
                w6,
                buf.bytes(),
                buf.pos as int,
                r,
                be16_bytes(self.resource_entries),
                fixed_error(2, room - 10),
                room,
            );
            assert(w6 + be16_bytes(self.resource_entries) =~= header_wire(*self));
        }
        r
    }
}

/// A header whose opcode fits its four bits is read back from its own bytes,
/// wherever they stand.
pub proof fn lemma_header_round_trip(h: Header, bytes: Seq<u8>, at: int)
    requires
        h.opcode < 16,
        0 <= at,
        at + HEADER_LEN <= bytes.len(),
        bytes.subrange(at, at + HEADER_LEN) == header_wire(h),
    ensures
        header_at(bytes, at) == h,
{
    let w = header_wire(h);
    assert(w.len() == 12);
    assert forall|i: int| 0 <= i < 12 implies bytes[at + i] == w[i] by {
        assert(bytes.subrange(at, at + HEADER_LEN)[i] == bytes[at + i]);
    }
    let a = flags_hi(h);
    let b = flags_lo(h);
    assert(w =~= seq![
        be16_bytes(h.id)[0],
        be16_bytes(h.id)[1],
        a,
        b,
        be16_bytes(h.questions)[0],
        be16_bytes(h.questions)[1],
        be16_bytes(h.answers)[0],
        be16_bytes(h.answers)[1],
        be16_bytes(h.authoritative_entries)[0],
        be16_bytes(h.authoritative_entries)[1],
        be16_bytes(h.resource_entries)[0],
        be16_bytes(h.resource_entries)[1],
    ]);
    assert(bytes[at + 2] == w[2]);
    assert(bytes[at + 3] == w[3]);
    let rd = bit(h.recursion_desired);
    let tc = bit(h.truncated_message);
    let aa = bit(h.authoritative_answer);
    let qr = bit(h.response);
    let op = h.opcode;
    assert(((a & 1) > 0) == (rd == 1) && ((a & 2) > 0) == (tc == 1) && ((a & 4) > 0) == (aa == 1)
        && ((a >> 3) & 0x0F) == op && ((a & 0x80) > 0) == (qr == 1)) by (bit_vector)
        requires
            a == rd | (tc << 1) | (aa << 2) | (op << 3) | (qr << 7),
            rd <= 1,
            tc <= 1,
            aa <= 1,
            qr <= 1,
            op < 16,
    ;
    let rc = h.rescode.spec_code();
    let cd = bit(h.checking_disabled);
    let ad = bit(h.authed_data);
    let z = bit(h.z);
    let ra = bit(h.recursion_available);
    h.rescode.lemma_code_round_trip();
    assert((b & 0x0F) == rc && ((b & 0x10) > 0) == (cd == 1) && ((b & 0x20) > 0) == (ad == 1) && ((
        b & 0x40) > 0) == (z == 1) && ((b & 0x80) > 0) == (ra == 1)) by (bit_vector)
        requires
            b == rc | (cd << 4) | (ad << 5) | (z << 6) | (ra << 7),
            rc <= 5,
            cd <= 1,
            ad <= 1,
            z <= 1,
            ra <= 1,
    ;
    lemma_be16_round_trip(h.id);
    lemma_be16_round_trip(h.questions);
    lemma_be16_round_trip(h.answers);
    lemma_be16_round_trip(h.authoritative_entries);
    lemma_be16_round_trip(h.resource_entries);
}

} // verus!
