//! Whole packets: the header and the four sections behind it.

use crate::dns::buf::{
    first_error, fixed_error, lemma_overwrite_nothing, lemma_written_then, written, Buf,
};
use crate::dns::header::{header_at, header_wire, Header, HEADER_LEN};
use crate::dns::question::{
    question_at, question_error, question_wire, Query, Question, QuestionView,
};
use crate::dns::record::{answer_at, answer_error, answer_wire, Answer, AnswerView};
use crate::error::DnsError;
use vstd::prelude::*;

verus! {

/// A packet. `answers` is a `Vec` of its own in a packet that is read, and
/// may be a borrowed slice in one that is only written.
#[derive(Clone, Debug)]
pub struct Packet<A = Vec<Answer>> {
    pub header: Header,
    pub questions: Vec<Question>,
    pub answers: A,
    pub authorities: Vec<Answer>,
    pub resources: Vec<Answer>,
}

/// What a [`Packet`] holds.
pub struct PacketView {
    pub header: Header,
    pub questions: Seq<QuestionView>,
    pub answers: Seq<AnswerView>,
    pub authorities: Seq<AnswerView>,
    pub resources: Seq<AnswerView>,
}

/// What each of `items` holds, in the same order.
pub open spec fn views<T: View>(items: Seq<T>) -> Seq<T::V> {
    Seq::new(items.len(), |i: int| items[i]@)
}

impl<A: View<V = Seq<Answer>>> View for Packet<A> {
    type V = PacketView;

    open spec fn view(&self) -> PacketView {
        PacketView {
            header: self.header,
            questions: views(self.questions@),
            answers: views(self.answers@),
            authorities: views(self.authorities@),
            resources: views(self.resources@),
        }
    }
}

/// A section that was read, with the offset behind it.
pub type Section<T> = Result<(Seq<T>, int), DnsError>;

/// `front` put before the entries of `rest`; an error stays what it is.
pub open spec fn behind<T>(front: Seq<T>, rest: Section<T>) -> Section<T> {
    match rest {
        Ok((items, end)) => Ok((front + items, end)),
        Err(e) => Err(e),
    }
}

/// The `n` questions that start at offset `pos` of `b`, and the offset
/// behind them.
#[verifier::opaque]
pub open spec fn questions_at(b: Seq<u8>, limit: int, pos: int, n: nat) -> Section<QuestionView>
    decreases n,
{
    if n == 0 {
        Ok((Seq::empty(), pos))
    } else {
        match question_at(b, limit, pos) {
            Err(e) => Err(e),
            Ok((q, next)) => behind(seq![q], questions_at(b, limit, next, (n - 1) as nat)),
        }
    }
}

/// The `n` records that start at offset `pos` of `b`, and the offset behind
/// them.
#[verifier::opaque]
pub open spec fn answers_at(b: Seq<u8>, limit: int, pos: int, n: nat) -> Section<AnswerView>
    decreases n,
{
    if n == 0 {
        Ok((Seq::empty(), pos))
    } else {
        match answer_at(b, limit, pos) {
            Err(e) => Err(e),
            Ok((a, next)) => behind(seq![a], answers_at(b, limit, next, (n - 1) as nat)),
        }
    }
}

/// The packet that starts at offset `pos` of `b`, and the offset behind it.
/// The counts of the header say how many entries each section holds. With
/// `with_answers` unset the answer section is passed over as if it were
/// empty, whatever its count says.
pub open spec fn packet_at(b: Seq<u8>, limit: int, pos: int, with_answers: bool) -> Result<
    (PacketView, int),
    DnsError,
> {
    if pos + HEADER_LEN > limit {
        Err(DnsError::BufferOverflow)
    } else {
        let header = header_at(b, pos);
        match questions_at(b, limit, pos + HEADER_LEN, header.questions as nat) {
            Err(e) => Err(e),
            Ok((questions, c1)) => match (if with_answers {
                answers_at(b, limit, c1, header.answers as nat)
            } else {
                Ok((Seq::empty(), c1))
            }) {
                Err(e) => Err(e),
                Ok((answers, c2)) => match answers_at(
                    b,
                    limit,
                    c2,
                    header.authoritative_entries as nat,
                ) {
                    Err(e) => Err(e),
                    Ok((authorities, c3)) => match answers_at(
                        b,
                        limit,
                        c3,
                        header.resource_entries as nat,
                    ) {
                        Err(e) => Err(e),
                        Ok((resources, c4)) => Ok(
                            (
                                PacketView { header, questions, answers, authorities, resources },
                                c4,
                            ),
                        ),
                    },
                },
            },
        }
    }
}

/// The wire form of the questions of `items` from index `from` on.
#[verifier::opaque]
pub open spec fn questions_wire(items: Seq<QuestionView>, from: int) -> Seq<u8>
    decreases items.len() - from,
{
    if from < 0 || from >= items.len() {
        Seq::empty()
    } else {
        question_wire(items[from]) + questions_wire(items, from + 1)
    }
}

/// The error that ends the writing of the questions of `items` from index
/// `from` on into `room` bytes, if there is one.
#[verifier::opaque]
pub open spec fn questions_error(items: Seq<QuestionView>, from: int, room: int) -> Option<
    DnsError,
>
    decreases items.len() - from,
{
    if from < 0 || from >= items.len() {
        None
    } else {
        first_error(
            question_error(items[from], room),
            questions_error(items, from + 1, room - question_wire(items[from]).len()),
        )
    }
}

/// The wire form of the records of `items` from index `from` on.
#[verifier::opaque]
pub open spec fn answers_wire(items: Seq<AnswerView>, from: int) -> Seq<u8>
    decreases items.len() - from,
{
    if from < 0 || from >= items.len() {
        Seq::empty()
    } else {
        answer_wire(items[from]) + answers_wire(items, from + 1)
    }
}

/// The error that ends the writing of the records of `items` from index
/// `from` on into `room` bytes, if there is one.
#[verifier::opaque]
pub open spec fn answers_error(items: Seq<AnswerView>, from: int, room: int) -> Option<DnsError>
    decreases items.len() - from,
{
    if from < 0 || from >= items.len() {
        None
    } else {
        first_error(
            answer_error(items[from], room),
            answers_error(items, from + 1, room - answer_wire(items[from]).len()),
        )
    }
}

/// `header` with the counts of the four sections of `p`, each cut to 16
/// bits.
pub open spec fn counted(p: PacketView) -> Header {
    Header {
        questions: p.questions.len() as u16,
        answers: p.answers.len() as u16,
        authoritative_entries: p.authorities.len() as u16,
        resource_entries: p.resources.len() as u16,
        ..p.header
    }
}

/// The wire form of a header and the four sections behind it.
pub open spec fn sections_wire(
    header: Header,
    questions: Seq<QuestionView>,
    answers: Seq<AnswerView>,
    authorities: Seq<AnswerView>,
    resources: Seq<AnswerView>,
) -> Seq<u8> {
    header_wire(header) + questions_wire(questions, 0) + answers_wire(answers, 0) + answers_wire(
        authorities,
        0,
    ) + answers_wire(resources, 0)
}

/// The error that ends the writing of a header and the four sections behind
/// it into `room` bytes, if there is one.
pub open spec fn sections_error(
    questions: Seq<QuestionView>,
    answers: Seq<AnswerView>,
    authorities: Seq<AnswerView>,
    resources: Seq<AnswerView>,
    room: int,
) -> Option<DnsError> {
    let r1 = room - HEADER_LEN;
    let r2 = r1 - questions_wire(questions, 0).len();
    let r3 = r2 - answers_wire(answers, 0).len();
    let r4 = r3 - answers_wire(authorities, 0).len();
    first_error(
        fixed_error(HEADER_LEN as int, room),
        first_error(
            questions_error(questions, 0, r1),
            first_error(
                answers_error(answers, 0, r2),
                first_error(answers_error(authorities, 0, r3), answers_error(resources, 0, r4)),
            ),
        ),
    )
}

/// The wire form of a packet: the header, then the questions, the answers,
/// the authorities and the additional records.
pub open spec fn packet_wire(p: PacketView) -> Seq<u8> {
    sections_wire(p.header, p.questions, p.answers, p.authorities, p.resources)
}

/// The error that ends the writing of a packet into `room` bytes, if there
/// is one.
pub open spec fn packet_error(p: PacketView, room: int) -> Option<DnsError> {
    sections_error(p.questions, p.answers, p.authorities, p.resources, room)
}

/// The views of a sequence and one more item are the views of the sequence
/// and the view of the item.
pub proof fn lemma_views_push<T: View>(items: Seq<T>, item: T)
    ensures
        views(items.push(item)) == views(items).push(item@),
        views(items.push(item)) == views(items) + seq![item@],
{
    assert(views(items.push(item)) =~= views(items).push(item@));
    assert(views(items).push(item@) =~= views(items) + seq![item@]);
}

/// The views of two sequences, one behind the other.
pub proof fn lemma_views_add<T: View>(a: Seq<T>, b: Seq<T>)
    ensures
        views(a + b) == views(a) + views(b),
{
    assert(views(a + b) =~= views(a) + views(b));
}

/// Reads `n` questions from under the cursor.
fn read_questions(buf: &mut Buf, n: u16) -> (r: Result<Vec<Question>, DnsError>)
    requires
        old(buf).wf(),
    ensures
        final(final(buf).buf)@ == final(old(buf).buf)@,
        final(buf).wf(),
        final(buf).bytes() == old(buf).bytes(),
        match questions_at(old(buf).bytes(), old(buf).limit(), old(buf).pos as int, n as nat) {
            Ok((items, end)) => r is Ok && views(r->Ok_0@) == items && final(buf).pos == end,
            Err(e) => r is Err && r->Err_0 == e,
        },
{
    let ghost b = buf.bytes();
    let ghost limit = buf.limit();
    let ghost start = buf.pos as int;
    let mut out: Vec<Question> = Vec::new();
    let mut i: u16 = 0;
    assert(views(out@) =~= Seq::<QuestionView>::empty());
    assert(behind(views(out@), questions_at(b, limit, start, n as nat)) == questions_at(
        b,
        limit,
        start,
        n as nat,
    )) by {
        if let Ok((items, end)) = questions_at(b, limit, start, n as nat) {
            assert(views(out@) + items =~= items);
        }
    }
    while i < n
        invariant
            final(buf.buf)@ == final(old(buf).buf)@,
            i <= n,
            buf.wf(),
            buf.bytes() == b,
            buf.limit() == limit,
            b == old(buf).bytes(),
            limit == old(buf).limit(),
            start == old(buf).pos,
            questions_at(b, limit, start, n as nat) == behind(
                views(out@),
                questions_at(b, limit, buf.pos as int, (n - i) as nat),
            ),
        decreases n - i,
    {
        proof {
            reveal(questions_at);
        }
        let ghost pos = buf.pos as int;
        let ghost before = views(out@);
        let mut question = Question::new(String::new(), Query::UNKNOWN(0));
        question.read(buf)?;
        proof {
            assert(Seq::<char>::empty() + question@.name =~= question@.name);
            lemma_views_push(out@, question);
            let rest = questions_at(b, limit, buf.pos as int, (n - i - 1) as nat);
            if let Ok((items, end)) = rest {
                assert(before + (seq![question@] + items) =~= (before + seq![question@]) + items);
            }
        }
        out.push(question);
        i += 1;
    }
    proof {
        reveal(questions_at);
        assert(views(out@) + Seq::<QuestionView>::empty() =~= views(out@));
    }
    Ok(out)
}

/// Reads `n` records from under the cursor.
fn read_answers(buf: &mut Buf, n: u16) -> (r: Result<Vec<Answer>, DnsError>)
    requires
        old(buf).wf(),
    ensures
        final(final(buf).buf)@ == final(old(buf).buf)@,
        final(buf).wf(),
        final(buf).bytes() == old(buf).bytes(),
        match answers_at(old(buf).bytes(), old(buf).limit(), old(buf).pos as int, n as nat) {
            Ok((items, end)) => r is Ok && views(r->Ok_0@) == items && final(buf).pos == end,
            Err(e) => r is Err && r->Err_0 == e,
        },
{
    let ghost b = buf.bytes();
    let ghost limit = buf.limit();
    let ghost start = buf.pos as int;
    let mut out: Vec<Answer> = Vec::new();
    let mut i: u16 = 0;
    assert(views(out@) =~= Seq::<AnswerView>::empty());
    assert(behind(views(out@), answers_at(b, limit, start, n as nat)) == answers_at(
        b,
        limit,
        start,
        n as nat,
    )) by {
        if let Ok((items, end)) = answers_at(b, limit, start, n as nat) {
            assert(views(out@) + items =~= items);
        }
    }
    while i < n
        invariant
            final(buf.buf)@ == final(old(buf).buf)@,
            i <= n,
            buf.wf(),
            buf.bytes() == b,
            buf.limit() == limit,
            b == old(buf).bytes(),
            limit == old(buf).limit(),
            start == old(buf).pos,
            answers_at(b, limit, start, n as nat) == behind(
                views(out@),
                answers_at(b, limit, buf.pos as int, (n - i) as nat),
            ),
        decreases n - i,
    {
        proof {
            reveal(answers_at);
        }
        let ghost before = views(out@);
        let rec = Answer::read(buf)?;
        proof {
            lemma_views_push(out@, rec);
            let rest = answers_at(b, limit, buf.pos as int, (n - i - 1) as nat);
            if let Ok((items, end)) = rest {
                assert(before + (seq![rec@] + items) =~= (before + seq![rec@]) + items);
            }
        }
        out.push(rec);
        i += 1;
    }
    proof {
        reveal(answers_at);
        assert(views(out@) + Seq::<AnswerView>::empty() =~= views(out@));
    }
    Ok(out)
}

/// Writes `items` under the cursor, one behind the other.
fn write_questions(buf: &mut Buf, items: &[Question]) -> (r: Result<(), DnsError>)
    requires
        old(buf).wf(),
    ensures
        final(final(buf).buf)@ == final(old(buf).buf)@,
        final(buf).wf(),
        written(
            old(buf).bytes(),
            old(buf).pos as int,
            final(buf).bytes(),
            final(buf).pos as int,
            r,
            questions_wire(views(items@), 0),
            questions_error(views(items@), 0, old(buf).limit() - old(buf).pos),
            old(buf).limit() - old(buf).pos,
        ),
{
    let ghost b0 = buf.bytes();
    let ghost at = buf.pos as int;
    let ghost room = buf.limit() - buf.pos;
    let ghost all = views(items@);
    let ghost done: Seq<u8> = Seq::empty();
    let n = items.len();
    let mut i: usize = 0;
    proof {
        lemma_overwrite_nothing(b0, at);
        assert(done + questions_wire(all, 0) =~= questions_wire(all, 0));
    }
    while i < n
        invariant
            final(buf.buf)@ == final(old(buf).buf)@,
            i <= n,
            n == items@.len(),
            all == views(items@),
            buf.wf(),
            b0 == old(buf).bytes(),
            at == old(buf).pos,
            room == old(buf).limit() - old(buf).pos,
            buf.limit() - at == room,
            at + done.len() == buf.pos,
            written(b0, at, buf.bytes(), buf.pos as int, Ok(()), done, None, room),
            done + questions_wire(all, i as int) == questions_wire(all, 0),
            questions_error(all, 0, room) == questions_error(all, i as int, room - done.len()),
        decreases n - i,
    {
        let ghost b1 = buf.bytes();
        let r = items[i].write(buf);
        proof {
            reveal(questions_wire);
            reveal(questions_error);
            lemma_written_then(
                b0,
                at,
                b1,
                at + done.len(),
                done,
                buf.bytes(),
                buf.pos as int,
                r,
                question_wire(all[i as int]),
                question_error(all[i as int], room - done.len()),
                room,
            );
            assert((done + question_wire(all[i as int])) + questions_wire(all, i + 1) =~= done
                + questions_wire(all, i as int));
        }
        r?;
        proof {
            done = done + question_wire(all[i as int]);
        }
        i += 1;
    }
    proof {
        reveal(questions_wire);
        reveal(questions_error);
        assert(done + Seq::<u8>::empty() =~= done);
    }
    Ok(())
}

/// Writes `items` under the cursor, one behind the other.
fn write_answers(buf: &mut Buf, items: &[Answer]) -> (r: Result<(), DnsError>)
    requires
        old(buf).wf(),
    ensures
        final(final(buf).buf)@ == final(old(buf).buf)@,
        final(buf).wf(),
        written(
            old(buf).bytes(),
            old(buf).pos as int,
            final(buf).bytes(),
            final(buf).pos as int,
            r,
            answers_wire(views(items@), 0),
            answers_error(views(items@), 0, old(buf).limit() - old(buf).pos),
            old(buf).limit() - old(buf).pos,
        ),
{
    let ghost b0 = buf.bytes();
    let ghost at = buf.pos as int;
    let ghost room = buf.limit() - buf.pos;
    let ghost all = views(items@);
    let ghost done: Seq<u8> = Seq::empty();
    let n = items.len();
    let mut i: usize = 0;
    proof {
        lemma_overwrite_nothing(b0, at);
        assert(done + answers_wire(all, 0) =~= answers_wire(all, 0));
    }
    while i < n
        invariant
            final(buf.buf)@ == final(old(buf).buf)@,
            i <= n,
            n == items@.len(),
            all == views(items@),
            buf.wf(),
            b0 == old(buf).bytes(),
            at == old(buf).pos,
            room == old(buf).limit() - old(buf).pos,
            buf.limit() - at == room,
            at + done.len() == buf.pos,
            written(b0, at, buf.bytes(), buf.pos as int, Ok(()), done, None, room),
            done + answers_wire(all, i as int) == answers_wire(all, 0),
            answers_error(all, 0, room) == answers_error(all, i as int, room - done.len()),
        decreases n - i,
    {
        let ghost b1 = buf.bytes();
        let r = items[i].write(buf);
        let ghost unit: Result<(), DnsError> = match r {
            Ok(_) => Ok(()),
            Err(e) => Err(e),
        };
        proof {
            reveal(answers_wire);
            reveal(answers_error);
            lemma_written_then(
                b0,
                at,
                b1,
                at + done.len(),
                done,
                buf.bytes(),
                buf.pos as int,
                unit,
                answer_wire(all[i as int]),
                answer_error(all[i as int], room - done.len()),
                room,
            );
            assert((done + answer_wire(all[i as int])) + answers_wire(all, i + 1) =~= done
                + answers_wire(all, i as int));
        }
        r?;
        proof {
            done = done + answer_wire(all[i as int]);
        }
        i += 1;
    }
    proof {
        reveal(answers_wire);
        reveal(answers_error);
        assert(done + Seq::<u8>::empty() =~= done);
    }
    Ok(())
}

/// Writes a header and the four sections behind it.
fn write_sections(
    header: &Header,
    questions: &[Question],
    answers: &[Answer],
    authorities: &[Answer],
    resources: &[Answer],
    buf: &mut Buf,
) -> (r: Result<(), DnsError>)
    requires
        old(buf).wf(),
    ensures
        final(final(buf).buf)@ == final(old(buf).buf)@,
        final(buf).wf(),
        written(
            old(buf).bytes(),
            old(buf).pos as int,
            final(buf).bytes(),
            final(buf).pos as int,
            r,
            sections_wire(
                *header,
                views(questions@),
                views(answers@),
                views(authorities@),
                views(resources@),
            ),
            sections_error(
                views(questions@),
                views(answers@),
                views(authorities@),
                views(resources@),
                old(buf).limit() - old(buf).pos,
            ),
            old(buf).limit() - old(buf).pos,
        ),
{
    let ghost b0 = buf.bytes();
    let ghost at = buf.pos as int;
    let ghost room = buf.limit() - buf.pos;
    let ghost w1 = header_wire(*header);
    let ghost w2 = w1 + questions_wire(views(questions@), 0);
    let ghost w3 = w2 + answers_wire(views(answers@), 0);
    let ghost w4 = w3 + answers_wire(views(authorities@), 0);

    header.write(buf)?;
    let ghost b1 = buf.bytes();
    let r = write_questions(buf, questions);
    proof {
        lemma_written_then(
            b0,
            at,
            b1,
            at + w1.len(),
            w1,
            buf.bytes(),
            buf.pos as int,
            r,
            questions_wire(views(questions@), 0),
            questions_error(views(questions@), 0, room - w1.len()),
            room,
        );
    }
    r?;
    let ghost b2 = buf.bytes();
    let r = write_answers(buf, answers);
    proof {
        lemma_written_then(
            b0,
            at,
            b2,
            at + w2.len(),
            w2,
            buf.bytes(),
            buf.pos as int,
            r,
            answers_wire(views(answers@), 0),
            answers_error(views(answers@), 0, room - w2.len()),
            room,
        );
    }
    r?;
    let ghost b3 = buf.bytes();
    let r = write_answers(buf, authorities);
    proof {
        lemma_written_then(
            b0,
            at,
            b3,
            at + w3.len(),
            w3,
            buf.bytes(),
            buf.pos as int,
            r,
            answers_wire(views(authorities@), 0),
            answers_error(views(authorities@), 0, room - w3.len()),
            room,
        );
    }
    r?;
    let ghost b4 = buf.bytes();
    let r = write_answers(buf, resources);
    proof {
        lemma_written_then(
            b0,
            at,
            b4,
            at + w4.len(),
            w4,
            buf.bytes(),
            buf.pos as int,
            r,
            answers_wire(views(resources@), 0),
            answers_error(views(resources@), 0, room - w4.len()),
            room,
        );
    }
    r
}

/// Reads the header under the cursor and the sections behind it, as many
/// entries of each as the header counts. With `with_answers` unset the
/// answer section is passed over as if it were empty.
fn read_all(buf: &mut Buf, with_answers: bool) -> (r: Result<Packet, DnsError>)
    requires
        old(buf).wf(),
    ensures
        final(final(buf).buf)@ == final(old(buf).buf)@,
        final(buf).wf(),
        final(buf).bytes() == old(buf).bytes(),
        match packet_at(old(buf).bytes(), old(buf).limit(), old(buf).pos as int, with_answers) {
            Ok((p, end)) => r is Ok && r->Ok_0@ == p && final(buf).pos == end,
            Err(e) => r is Err && r->Err_0 == e,
        },
{
    let mut header = Header::new();
    header.read(buf)?;
    let questions = read_questions(buf, header.questions)?;
    let answers = if with_answers {
        read_answers(buf, header.answers)?
    } else {
        Vec::new()
    };
    let authorities = read_answers(buf, header.authoritative_entries)?;
    let resources = read_answers(buf, header.resource_entries)?;
    proof {
        assert(views(answers@) =~= if with_answers {
            views(answers@)
        } else {
            Seq::<AnswerView>::empty()
        });
    }
    Ok(Packet { header, questions, answers, authorities, resources })
}

/// The number of entries of a section as the header holds it: cut to 16
/// bits.
fn count(len: usize) -> (n: u16)
    ensures
        n == len as u16,
{
    #[verifier::truncate]
    (len as u16)
}

impl Packet {
    /// An empty packet with a header of zeros.
    pub fn new() -> (p: Packet)
        ensures
            p.header == Header::new(),
            p.questions@.len() == 0,
            p.answers@.len() == 0,
            p.authorities@.len() == 0,
            p.resources@.len() == 0,
    {
        Packet {
            header: Header::new(),
            questions: Vec::new(),
            answers: Vec::new(),
            authorities: Vec::new(),
            resources: Vec::new(),
        }
    }

    /// Reads the packet under the cursor: the header replaces
    /// `self.header`, and the entries of each section are appended to those
    /// that `self` holds. Where the packet cannot be read, `self` and the
    /// cursor stay as they were.
    pub fn read(&mut self, buf: &mut Buf) -> (r: Result<(), DnsError>)
        requires
            old(buf).wf(),
        ensures
            final(final(buf).buf)@ == final(old(buf).buf)@,
            final(buf).wf(),
            final(buf).bytes() == old(buf).bytes(),
            match packet_at(old(buf).bytes(), old(buf).limit(), old(buf).pos as int, true) {
                Ok((p, end)) => r is Ok && final(self)@ == (PacketView {
                    header: p.header,
                    questions: old(self)@.questions + p.questions,
                    answers: old(self)@.answers + p.answers,
                    authorities: old(self)@.authorities + p.authorities,
                    resources: old(self)@.resources + p.resources,
                }) && final(buf).pos == end,
                Err(e) => r == Err::<(), DnsError>(e) && final(self)@ == old(self)@ && final(buf).pos == old(buf).pos,
            },
    {
        let start = buf.pos;
        match read_all(buf, true) {
            Ok(read) => {
                let mut read = read;
                proof {
                    lemma_views_add(self.questions@, read.questions@);
                    lemma_views_add(self.answers@, read.answers@);
                    lemma_views_add(self.authorities@, read.authorities@);
                    lemma_views_add(self.resources@, read.resources@);
                }
                self.header = read.header;
                self.questions.append(&mut read.questions);
                self.answers.append(&mut read.answers);
                self.authorities.append(&mut read.authorities);
                self.resources.append(&mut read.resources);
                Ok(())
            },
            Err(e) => {
                buf.seek(start);
                Err(e)
            },
        }
    }

    /// Sets the counts of the header to the lengths of the sections, then
    /// writes the packet under the cursor.
    pub fn write(&mut self, buf: &mut Buf) -> (r: Result<(), DnsError>)
        requires
            old(buf).wf(),
        ensures
            final(final(buf).buf)@ == final(old(buf).buf)@,
            final(buf).wf(),
            final(self)@ == (PacketView { header: counted(old(self)@), ..old(self)@ }),
            written(
                old(buf).bytes(),
                old(buf).pos as int,
                final(buf).bytes(),
                final(buf).pos as int,
                r,
                packet_wire(final(self)@),
                packet_error(final(self)@, old(buf).limit() - old(buf).pos),
                old(buf).limit() - old(buf).pos,
            ),
    {
        self.header.questions = count(self.questions.len());
        self.header.answers = count(self.answers.len());
        self.header.authoritative_entries = count(self.authorities.len());
        self.header.resource_entries = count(self.resources.len());
        write_sections(
            &self.header,
            self.questions.as_slice(),
            self.answers.as_slice(),
            self.authorities.as_slice(),
            self.resources.as_slice(),
            buf,
        )
    }
}

impl<'a> Packet<&'a [Answer]> {
    /// An empty packet with a header of zeros, whose answers are borrowed.
    pub fn new_ref() -> (p: Self)
        ensures
            p.header == Header::new(),
            p.questions@.len() == 0,
            p.answers@.len() == 0,
            p.authorities@.len() == 0,
            p.resources@.len() == 0,
    {
        Packet {
            header: Header::new(),
            questions: Vec::new(),
            answers: &[],
            authorities: Vec::new(),
            resources: Vec::new(),
        }
    }

    /// Reads the query under the cursor: the header, the questions, and
    /// behind them at once the authorities and the additional records. The
    /// answer section is taken to be empty and `self.answers` stays as it
    /// is. Where the packet cannot be read, `self` and the cursor stay as
    /// they were.
    pub fn read(&mut self, buf: &mut Buf) -> (r: Result<(), DnsError>)
        requires
            old(buf).wf(),
        ensures
            final(final(buf).buf)@ == final(old(buf).buf)@,
            final(buf).wf(),
            final(buf).bytes() == old(buf).bytes(),
            match packet_at(old(buf).bytes(), old(buf).limit(), old(buf).pos as int, false) {
                Ok((p, end)) => r is Ok && final(self)@ == (PacketView {
                    header: p.header,
                    questions: old(self)@.questions + p.questions,
                    answers: old(self)@.answers,
                    authorities: old(self)@.authorities + p.authorities,
                    resources: old(self)@.resources + p.resources,
                }) && final(buf).pos == end,
                Err(e) => r == Err::<(), DnsError>(e) && final(self)@ == old(self)@ && final(buf).pos == old(buf).pos,
            },
    {
        let start = buf.pos;
        match read_all(buf, false) {
            Ok(read) => {
                let mut read = read;
                proof {
                    lemma_views_add(self.questions@, read.questions@);
                    lemma_views_add(self.authorities@, read.authorities@);
                    lemma_views_add(self.resources@, read.resources@);
                }
                self.header = read.header;
                self.questions.append(&mut read.questions);
                self.authorities.append(&mut read.authorities);
                self.resources.append(&mut read.resources);
                Ok(())
            },
            Err(e) => {
                buf.seek(start);
                Err(e)
            },
        }
    }

    /// Sets the counts of the header to the lengths of the sections, then
    /// writes the packet under the cursor.
    pub fn write(&mut self, buf: &mut Buf) -> (r: Result<(), DnsError>)
        requires
            old(buf).wf(),
        ensures
            final(final(buf).buf)@ == final(old(buf).buf)@,
            final(buf).wf(),
            final(self)@ == (PacketView { header: counted(old(self)@), ..old(self)@ }),
            written(
                old(buf).bytes(),
                old(buf).pos as int,
                final(buf).bytes(),
                final(buf).pos as int,
                r,
                packet_wire(final(self)@),
                packet_error(final(self)@, old(buf).limit() - old(buf).pos),
                old(buf).limit() - old(buf).pos,
            ),
    {
        self.header.questions = count(self.questions.len());
        self.header.answers = count(self.answers.len());
        self.header.authoritative_entries = count(self.authorities.len());
        self.header.resource_entries = count(self.resources.len());
        write_sections(
            &self.header,
            self.questions.as_slice(),
            self.answers,
            self.authorities.as_slice(),
            self.resources.as_slice(),
            buf,
        )
    }
}

} // verus!
