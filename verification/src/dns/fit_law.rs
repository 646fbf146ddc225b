//! What is written without an error fits: the wire form of what was
//! written is no longer than the room it was written into.

use crate::dns::header::{header_wire, HEADER_LEN};
use crate::dns::name::{
    label_end, lemma_label_end_bounds, name_error, name_error_from, name_wire, name_wire_from,
};
use crate::dns::packet::{
    answers_error, answers_wire, packet_error, packet_wire, questions_error, questions_wire,
    PacketView,
};
use crate::dns::question::{question_error, question_wire, QuestionView};
use crate::dns::record::{answer_error, answer_wire, AnswerView, RecordView};
use vstd::prelude::*;

verus! {

/// An A record holds the four octets of its address. The view of every
/// record does.
pub open spec fn octets_ok(record: RecordView) -> bool {
    record matches RecordView::A { addr } ==> addr.len() == 4
}

/// Every record of `items` holds its octets.
pub open spec fn all_octets_ok(items: Seq<AnswerView>) -> bool {
    forall|i: int| 0 <= i < items.len() ==> octets_ok((#[trigger] items[i]).record)
}

/// A name that is written without an error fits.
pub proof fn lemma_name_fits(s: Seq<u8>, from: int, room: int)
    requires
        0 <= from <= s.len(),
        name_error_from(s, from, room) is None,
    ensures
        name_wire_from(s, from).len() <= room,
    decreases s.len() - from,
{
    reveal(name_wire_from);
    reveal(name_error_from);
    lemma_label_end_bounds(s, from);
    let end = label_end(s, from);
    if end < s.len() {
        lemma_name_fits(s, end + 1, room - 1 - (end - from));
    }
}

/// A question that is written without an error fits.
pub proof fn lemma_question_fits(q: QuestionView, room: int)
    requires
        question_error(q, room) is None,
    ensures
        question_wire(q).len() <= room,
{
    lemma_name_fits(vstd::utf8::encode_utf8(q.name), 0, room);
}

/// A record that is written without an error fits.
pub proof fn lemma_answer_fits(a: AnswerView, room: int)
    requires
        0 <= room,
        octets_ok(a.record),
        answer_error(a, room) is None,
    ensures
        answer_wire(a).len() <= room,
{
    let domain = vstd::utf8::encode_utf8(a.domain);
    if !(a.record is UNKNOWN) {
        lemma_name_fits(domain, 0, room);
        let left = room - name_wire(domain).len() - 8;
        match a.record {
            RecordView::NS { host } => {
                lemma_name_fits(vstd::utf8::encode_utf8(host), 0, left - 2);
            },
            RecordView::CNAME { host } => {
                lemma_name_fits(vstd::utf8::encode_utf8(host), 0, left - 2);
            },
            RecordView::MX { host, .. } => {
                lemma_name_fits(vstd::utf8::encode_utf8(host), 0, left - 4);
            },
            _ => {},
        }
    }
}

/// Questions that are written without an error fit.
pub proof fn lemma_questions_fit(items: Seq<QuestionView>, from: int, room: int)
    requires
        0 <= from,
        0 <= room,
        questions_error(items, from, room) is None,
    ensures
        questions_wire(items, from).len() <= room,
    decreases items.len() - from,
{
    reveal(questions_wire);
    reveal(questions_error);
    if from < items.len() {
        lemma_question_fits(items[from], room);
        lemma_questions_fit(items, from + 1, room - question_wire(items[from]).len());
    }
}

/// Records that are written without an error fit.
pub proof fn lemma_answers_fit(items: Seq<AnswerView>, from: int, room: int)
    requires
        0 <= from,
        0 <= room,
        all_octets_ok(items),
        answers_error(items, from, room) is None,
    ensures
        answers_wire(items, from).len() <= room,
    decreases items.len() - from,
{
    reveal(answers_wire);
    reveal(answers_error);
    if from < items.len() {
        lemma_answer_fits(items[from], room);
        lemma_answers_fit(items, from + 1, room - answer_wire(items[from]).len());
    }
}

/// A packet that is written without an error fits: its wire form is no
/// longer than the room it was written into.
pub proof fn lemma_packet_fits(p: PacketView, room: int)
    requires
        all_octets_ok(p.answers),
        all_octets_ok(p.authorities),
        all_octets_ok(p.resources),
        packet_error(p, room) is None,
    ensures
        packet_wire(p).len() <= room,
{
    let r1 = room - HEADER_LEN;
    let r2 = r1 - questions_wire(p.questions, 0).len();
    let r3 = r2 - answers_wire(p.answers, 0).len();
    let r4 = r3 - answers_wire(p.authorities, 0).len();
    assert(header_wire(p.header).len() == HEADER_LEN);
    lemma_questions_fit(p.questions, 0, r1);
    lemma_answers_fit(p.answers, 0, r2);
    lemma_answers_fit(p.authorities, 0, r3);
    lemma_answers_fit(p.resources, 0, r4);
}

} // verus!
