//! What is written can be read back: the laws that tie the wire forms to
//! the reading of them.

use crate::dns::buf::{be16, be16_bytes, be32, be32_bytes, BUF_LEN};
use crate::dns::header::{header_at, header_wire, lemma_header_round_trip, HEADER_LEN};
use crate::dns::name::{
    label_end, label_text, lemma_label_end_bounds, lowercase, name_end, name_text, name_wire,
    name_wire_from, separator, MAX_LABEL,
};
use crate::dns::packet::{
    answers_at, answers_wire, behind, counted, packet_at, packet_wire, questions_at,
    questions_wire, PacketView,
};
use crate::dns::question::{question_at, question_wire, QuestionView};
use crate::dns::record::{
    answer_at, answer_wire, groups_at, groups_wire, head_wire, rdata_at, rdata_wire,
    record_type, sized_name_wire, AnswerView, RecordView,
};
use vstd::prelude::*;
use vstd::utf8::{
    decode_utf8, encode_utf8, encode_utf8_valid_utf8, is_char_boundary_iff_not_is_continuation_byte,
    is_char_boundary_start_end_of_seq, pop_first_scalar, valid_utf8, valid_utf8_split,
};

verus! {

/// Every label of `s` from offset `from` on holds at least one byte and at
/// most 63.
pub open spec fn labels_ok(s: Seq<u8>, from: int) -> bool
    decreases s.len() - from,
{
    let end = label_end(s, from);
    &&& 1 <= end - from <= MAX_LABEL
    &&& end < s.len() ==> {
        proof {
            lemma_label_end_bounds(s, from);
        }
        labels_ok(s, end + 1)
    }
}

/// The text that the labels of `s` from offset `from` on are read back as:
/// label by label what std's lossy conversion and lower-casing give, with
/// dots between them.
pub open spec fn canonical_from(s: Seq<u8>, from: int, first: bool) -> Seq<char>
    decreases s.len() - from,
{
    let end = label_end(s, from);
    let head = separator(first) + label_text(s.subrange(from, end));
    if end >= s.len() {
        head
    } else {
        proof {
            lemma_label_end_bounds(s, from);
        }
        head + canonical_from(s, end + 1, false)
    }
}

/// A name that can be read back from its wire form: none of its labels is
/// empty or longer than 63 bytes.
pub open spec fn name_ok(name: Seq<char>) -> bool {
    labels_ok(encode_utf8(name), 0)
}

/// The text that `name` is read back as from its wire form.
pub open spec fn canonical_name(name: Seq<char>) -> Seq<char> {
    canonical_from(encode_utf8(name), 0, true)
}

/// The text of the labels of `s` from offset `from` on where they are valid
/// UTF-8: the characters of each label in lower case, with dots between
/// the labels.
pub open spec fn lowered_from(s: Seq<u8>, from: int, first: bool) -> Seq<char>
    decreases s.len() - from,
{
    let end = label_end(s, from);
    let head = separator(first) + lowercase(decode_utf8(s.subrange(from, end)));
    if end >= s.len() {
        head
    } else {
        proof {
            lemma_label_end_bounds(s, from);
        }
        head + lowered_from(s, end + 1, false)
    }
}

/// Within valid UTF-8 every label is valid UTF-8 itself, so that its
/// canonical text is nothing but its characters in lower case.
pub proof fn lemma_canonical_of_text(s: Seq<u8>, from: int, first: bool)
    requires
        0 <= from <= s.len(),
        valid_utf8(s.subrange(from, s.len() as int)),
    ensures
        canonical_from(s, from, first) == lowered_from(s, from, first),
    decreases s.len() - from,
{
    lemma_label_end_bounds(s, from);
    let end = label_end(s, from);
    let rest = s.subrange(from, s.len() as int);
    let k = end - from;
    if k == rest.len() {
        is_char_boundary_start_end_of_seq(rest);
    } else {
        assert(rest[k] == s[end]);
        is_char_boundary_iff_not_is_continuation_byte(rest, k);
    }
    valid_utf8_split(rest, k);
    assert(rest.subrange(0, k) =~= s.subrange(from, end));
    assert(rest.subrange(k, rest.len() as int) =~= s.subrange(end, s.len() as int));
    if end < s.len() {
        let tail = s.subrange(end, s.len() as int);
        assert(tail[0] == s[end]);
        assert(valid_utf8(pop_first_scalar(tail)));
        assert(pop_first_scalar(tail) =~= s.subrange(end + 1, s.len() as int));
        lemma_canonical_of_text(s, end + 1, false);
    }
}

/// A name is read back from its wire form in lower case, label by label,
/// and is changed in nothing else.
pub proof fn lemma_canonical_name_of_text(name: Seq<char>)
    ensures
        canonical_name(name) == lowered_from(encode_utf8(name), 0, true),
{
    let s = encode_utf8(name);
    encode_utf8_valid_utf8(name);
    assert(s.subrange(0, s.len() as int) =~= s);
    lemma_canonical_of_text(s, 0, true);
}

/// The wire form of a name holds at least two bytes.
pub proof fn lemma_name_wire_len(s: Seq<u8>, from: int)
    requires
        0 <= from <= s.len(),
    ensures
        name_wire_from(s, from).len() >= 2 + label_end(s, from) - from,
        from <= label_end(s, from) <= s.len(),
    decreases s.len() - from,
{
    reveal(name_wire_from);
    lemma_label_end_bounds(s, from);
    let end = label_end(s, from);
    if end < s.len() {
        lemma_name_wire_len(s, end + 1);
    }
}

/// A name whose labels are neither empty nor too long is read back from its
/// wire form, wherever that stands inside the window: its text is the
/// canonical text of the name, and it ends where the wire form ends.
pub proof fn lemma_name_round_trip(
    s: Seq<u8>,
    from: int,
    b: Seq<u8>,
    limit: int,
    at: int,
    jumps: nat,
    first: bool,
)
    requires
        0 <= from <= s.len(),
        labels_ok(s, from),
        0 <= at,
        at + name_wire_from(s, from).len() <= limit <= b.len(),
        b.subrange(at, at + name_wire_from(s, from).len()) == name_wire_from(s, from),
    ensures
        name_text(b, limit, at, jumps, first) == Ok::<Seq<char>, crate::error::DnsError>(
            canonical_from(s, from, first),
        ),
        name_end(b, limit, at) == at + name_wire_from(s, from).len(),
    decreases s.len() - from,
{
    reveal(name_wire_from);
    reveal(name_text);
    reveal(name_end);
    lemma_label_end_bounds(s, from);
    let wire = name_wire_from(s, from);
    let end = label_end(s, from);
    let n = end - from;
    let label = s.subrange(from, end);
    let head = seq![n as u8] + label;
    assert forall|i: int| 0 <= i < wire.len() implies b[at + i] == wire[i] by {
        assert(b.subrange(at, at + wire.len())[i] == b[at + i]);
    }
    assert(wire[0] == n as u8);
    assert(b[at] == n as u8);
    assert(b.subrange(at + 1, at + 1 + n) =~= label) by {
        assert forall|i: int| 0 <= i < n implies b[at + 1 + i] == label[i] by {
            assert(wire[1 + i] == label[i]);
        }
    }
    let next = at + 1 + n;
    if end >= s.len() {
        assert(wire =~= head + seq![0u8]);
        assert(wire[1 + n] == 0u8);
        assert(b[next] == 0u8);
        assert(name_end(b, limit, next) == next + 1);
        assert(name_text(b, limit, next, jumps, false) == Ok::<Seq<char>, crate::error::DnsError>(
            Seq::empty(),
        ));
        assert(separator(first) + label_text(label) + Seq::<char>::empty() =~= separator(first)
            + label_text(label));
    } else {
        let tail = name_wire_from(s, end + 1);
        lemma_name_wire_len(s, end + 1);
        assert(wire =~= head + tail);
        assert(b.subrange(next, next + tail.len()) =~= tail) by {
            assert forall|i: int| 0 <= i < tail.len() implies b[next + i] == tail[i] by {
                assert(wire[1 + n + i] == tail[i]);
            }
        }
        lemma_name_round_trip(s, end + 1, b, limit, next, jumps, false);
    }
}

/// Where `whole` stands at offset `at` of `b`, the part of it that starts at
/// its offset `off` stands at offset `at + off` of `b`.
pub proof fn lemma_part_stands(b: Seq<u8>, at: int, whole: Seq<u8>, off: int, part: Seq<u8>)
    requires
        0 <= at,
        at + whole.len() <= b.len(),
        b.subrange(at, at + whole.len()) == whole,
        0 <= off,
        off + part.len() <= whole.len(),
        whole.subrange(off, off + part.len()) == part,
    ensures
        b.subrange(at + off, at + off + part.len()) == part,
        forall|i: int| 0 <= i < part.len() ==> b[at + off + i] == part[i],
{
    assert forall|i: int| 0 <= i < part.len() implies b[at + off + i] == part[i] by {
        assert(b.subrange(at, at + whole.len())[off + i] == b[at + off + i]);
        assert(whole.subrange(off, off + part.len())[i] == whole[off + i]);
    }
    assert(b.subrange(at + off, at + off + part.len()) =~= part);
}

/// Four bytes in network order are read back as the number they were
/// written for.
pub proof fn lemma_be32_round_trip(val: u32)
    ensures
        be32_bytes(val).len() == 4,
        be32(be32_bytes(val)[0], be32_bytes(val)[1], be32_bytes(val)[2], be32_bytes(val)[3])
            == val,
{
    let v = val as int;
    assert(v == (v / 0x100_0000) * 0x100_0000 + ((v / 0x1_0000) % 256) * 0x1_0000 + ((v / 0x100)
        % 256) * 0x100 + v % 256) by (nonlinear_arith)
        requires
            0 <= v < 0x1_0000_0000,
    ;
    assert(v / 0x100_0000 < 256) by (nonlinear_arith)
        requires
            0 <= v < 0x1_0000_0000,
    ;
}

/// A question as it is read back from its wire form.
pub open spec fn normal_question(q: QuestionView) -> QuestionView {
    QuestionView { name: canonical_name(q.name), qtype: q.qtype }
}

/// A question that can be read back from its wire form.
pub open spec fn question_ok(q: QuestionView) -> bool {
    name_ok(q.name) && q.qtype.canonical()
}

/// A question is read back from its wire form, wherever that stands inside
/// the window.
pub proof fn lemma_question_round_trip(q: QuestionView, b: Seq<u8>, limit: int, at: int)
    requires
        question_ok(q),
        0 <= at,
        at + question_wire(q).len() <= limit <= b.len(),
        b.subrange(at, at + question_wire(q).len()) == question_wire(q),
    ensures
        question_at(b, limit, at) == Ok::<(QuestionView, int), crate::error::DnsError>(
            (normal_question(q), at + question_wire(q).len()),
        ),
{
    let s = encode_utf8(q.name);
    let name = name_wire(s);
    let wire = question_wire(q);
    let num = q.qtype.spec_num();
    assert(wire.subrange(0, name.len() as int) =~= name);
    assert(wire.subrange(name.len() as int, name.len() as int + 2) =~= be16_bytes(num));
    lemma_part_stands(b, at, wire, 0, name);
    lemma_part_stands(b, at, wire, name.len() as int, be16_bytes(num));
    lemma_name_round_trip(s, 0, b, limit, at, crate::dns::name::MAX_JUMPS as nat, true);
    let p = at + name.len();
    assert(b[p] == be16_bytes(num)[0]);
    assert(b[p + 1] == be16_bytes(num)[1]);
}

/// A record as it is read back from its wire form.
pub open spec fn normal_record(record: RecordView) -> RecordView {
    match record {
        RecordView::NS { host } => RecordView::NS { host: canonical_name(host) },
        RecordView::CNAME { host } => RecordView::CNAME { host: canonical_name(host) },
        RecordView::MX { priority, host } => RecordView::MX {
            priority,
            host: canonical_name(host),
        },
        other => other,
    }
}

/// A resource record as it is read back from its wire form.
pub open spec fn normal_answer(a: AnswerView) -> AnswerView {
    AnswerView { domain: canonical_name(a.domain), ttl: a.ttl, record: normal_record(a.record) }
}

/// The data of a record that can be read back from its wire form: its
/// type is one that is written, an address has its four octets or eight
/// groups, and a name can be read back.
pub open spec fn record_ok(record: RecordView) -> bool {
    match record {
        RecordView::UNKNOWN { .. } => false,
        RecordView::A { addr } => addr.len() == 4,
        RecordView::AAAA { addr } => addr.len() == 8,
        RecordView::NS { host } => name_ok(host),
        RecordView::CNAME { host } => name_ok(host),
        RecordView::MX { host, .. } => name_ok(host),
    }
}

/// A resource record that can be read back from its wire form.
pub open spec fn answer_ok(a: AnswerView) -> bool {
    name_ok(a.domain) && record_ok(a.record)
}

/// The data of a record that ends in a name is read back.
proof fn lemma_sized_name_round_trip(
    before: Seq<u8>,
    host: Seq<char>,
    b: Seq<u8>,
    limit: int,
    at: int,
)
    requires
        name_ok(host),
        0 <= at,
        at + sized_name_wire(before, host).len() <= limit <= b.len(),
        b.subrange(at, at + sized_name_wire(before, host).len()) == sized_name_wire(before, host),
    ensures
        name_text(b, limit, at + 2 + before.len(), crate::dns::name::MAX_JUMPS as nat, true)
            == Ok::<Seq<char>, crate::error::DnsError>(canonical_name(host)),
        name_end(b, limit, at + 2 + before.len()) == at + sized_name_wire(before, host).len(),
        b.subrange(at + 2, at + 2 + before.len()) == before,
{
    let s = encode_utf8(host);
    let name = name_wire(s);
    let wire = sized_name_wire(before, host);
    assert(wire.subrange(2 + before.len() as int, 2 + before.len() as int + name.len() as int) =~= name);
    assert(wire.subrange(2, 2 + before.len() as int) =~= before);
    lemma_part_stands(b, at, wire, 2 + before.len() as int, name);
    lemma_part_stands(b, at, wire, 2, before);
    lemma_name_round_trip(
        s,
        0,
        b,
        limit,
        at + 2 + before.len(),
        crate::dns::name::MAX_JUMPS as nat,
        true,
    );
}

/// The data of a record is read back from its wire form behind the ten
/// bytes that follow the name of the record.
proof fn lemma_rdata_round_trip(record: RecordView, b: Seq<u8>, limit: int, at: int)
    requires
        record_ok(record),
        0 <= at,
        at + rdata_wire(record).len() <= limit <= b.len(),
        b.subrange(at, at + rdata_wire(record).len()) == rdata_wire(record),
    ensures
        rdata_at(b, limit, at + 2, record_type(record), be16(b[at], b[at + 1])) == Ok::<
            (RecordView, int),
            crate::error::DnsError,
        >((normal_record(record), at + rdata_wire(record).len())),
{
    let wire = rdata_wire(record);
    match record {
        RecordView::UNKNOWN { .. } => {},
        RecordView::A { addr } => {
            assert(wire.subrange(2, 6) =~= addr);
            lemma_part_stands(b, at, wire, 2, addr);
        },
        RecordView::AAAA { addr } => {
            let bytes = groups_wire(addr);
            assert(wire.subrange(2, 18) =~= bytes);
            lemma_part_stands(b, at, wire, 2, bytes);
            assert forall|i: int| 0 <= i < 8 implies groups_at(b, at + 2)[i] == addr[i] by {
                assert(b[at + 2 + 2 * i] == bytes[2 * i]);
                assert(b[at + 2 + (2 * i + 1)] == bytes[2 * i + 1]);
            }
            assert(groups_at(b, at + 2) =~= addr);
        },
        RecordView::NS { host } => {
            lemma_sized_name_round_trip(Seq::empty(), host, b, limit, at);
        },
        RecordView::CNAME { host } => {
            lemma_sized_name_round_trip(Seq::empty(), host, b, limit, at);
        },
        RecordView::MX { priority, host } => {
            lemma_sized_name_round_trip(be16_bytes(priority), host, b, limit, at);
            let before = b.subrange(at + 2, at + 4);
            assert(before[0] == b[at + 2]);
            assert(before[1] == b[at + 3]);
        },
    }
}

/// A resource record is read back from its wire form, wherever that
/// stands inside the window.
pub proof fn lemma_answer_round_trip(a: AnswerView, b: Seq<u8>, limit: int, at: int)
    requires
        answer_ok(a),
        0 <= at,
        at + answer_wire(a).len() <= limit <= b.len(),
        b.subrange(at, at + answer_wire(a).len()) == answer_wire(a),
    ensures
        answer_at(b, limit, at) == Ok::<(AnswerView, int), crate::error::DnsError>(
            (normal_answer(a), at + answer_wire(a).len()),
        ),
{
    let s = encode_utf8(a.domain);
    let name = name_wire(s);
    let wire = answer_wire(a);
    let num = record_type(a.record);
    let head = head_wire(a.domain, num, a.ttl);
    let data = rdata_wire(a.record);
    let fixed = be16_bytes(num) + be16_bytes(1) + be32_bytes(a.ttl);
    assert(head =~= name + fixed);
    assert(wire.subrange(0, name.len() as int) =~= name);
    assert(wire.subrange(name.len() as int, name.len() as int + 8) =~= fixed);
    assert(wire.subrange(head.len() as int, head.len() as int + data.len() as int) =~= data);
    lemma_part_stands(b, at, wire, 0, name);
    lemma_part_stands(b, at, wire, name.len() as int, fixed);
    lemma_part_stands(b, at, wire, head.len() as int, data);
    lemma_name_round_trip(s, 0, b, limit, at, crate::dns::name::MAX_JUMPS as nat, true);
    let p = at + name.len();
    assert(b[p] == fixed[0] && b[p + 1] == fixed[1]);
    assert(b[p + 4] == fixed[4] && b[p + 5] == fixed[5] && b[p + 6] == fixed[6] && b[p + 7]
        == fixed[7]);
    lemma_be32_round_trip(a.ttl);
    assert(data.len() >= 2);
    lemma_rdata_round_trip(a.record, b, limit, p + 8);
}

/// Every question of `items` can be read back.
pub open spec fn questions_ok(items: Seq<QuestionView>) -> bool {
    forall|i: int| 0 <= i < items.len() ==> question_ok(#[trigger] items[i])
}

/// Every record of `items` can be read back.
pub open spec fn answers_ok(items: Seq<AnswerView>) -> bool {
    forall|i: int| 0 <= i < items.len() ==> answer_ok(#[trigger] items[i])
}

/// The questions of `items` as they are read back.
pub open spec fn normal_questions(items: Seq<QuestionView>) -> Seq<QuestionView> {
    Seq::new(items.len(), |i: int| normal_question(items[i]))
}

/// The records of `items` as they are read back.
pub open spec fn normal_answers(items: Seq<AnswerView>) -> Seq<AnswerView> {
    Seq::new(items.len(), |i: int| normal_answer(items[i]))
}

/// The wire form of questions holds at least one byte for each of them.
pub proof fn lemma_questions_wire_len(items: Seq<QuestionView>, from: int)
    requires
        0 <= from <= items.len(),
    ensures
        questions_wire(items, from).len() >= items.len() - from,
    decreases items.len() - from,
{
    reveal(questions_wire);
    if from < items.len() {
        lemma_questions_wire_len(items, from + 1);
    }
}

/// The wire form of records that can be read back holds at least one byte
/// for each of them.
pub proof fn lemma_answers_wire_len(items: Seq<AnswerView>, from: int)
    requires
        0 <= from <= items.len(),
        answers_ok(items),
    ensures
        answers_wire(items, from).len() >= items.len() - from,
    decreases items.len() - from,
{
    reveal(answers_wire);
    if from < items.len() {
        lemma_answers_wire_len(items, from + 1);
        assert(answer_ok(items[from]));
        assert(answer_wire(items[from]).len() >= 1);
    }
}

/// Questions are read back from their wire form, one behind the other.
pub proof fn lemma_questions_round_trip(
    items: Seq<QuestionView>,
    from: int,
    b: Seq<u8>,
    limit: int,
    at: int,
)
    requires
        0 <= from <= items.len(),
        questions_ok(items),
        0 <= at,
        at + questions_wire(items, from).len() <= limit <= b.len(),
        b.subrange(at, at + questions_wire(items, from).len()) == questions_wire(items, from),
    ensures
        questions_at(b, limit, at, (items.len() - from) as nat) == Ok::<
            (Seq<QuestionView>, int),
            crate::error::DnsError,
        >((normal_questions(items).skip(from), at + questions_wire(items, from).len())),
    decreases items.len() - from,
{
    reveal(questions_wire);
    reveal(questions_at);
    if from >= items.len() {
        assert(normal_questions(items).skip(from) =~= Seq::<QuestionView>::empty());
    } else {
        let q = items[from];
        let first = question_wire(q);
        let tail = questions_wire(items, from + 1);
        let wire = questions_wire(items, from);
        assert(question_ok(q));
        assert(wire.subrange(0, first.len() as int) =~= first);
        assert(wire.subrange(first.len() as int, first.len() as int + tail.len() as int) =~= tail);
        lemma_part_stands(b, at, wire, 0, first);
        lemma_part_stands(b, at, wire, first.len() as int, tail);
        lemma_question_round_trip(q, b, limit, at);
        lemma_questions_round_trip(items, from + 1, b, limit, at + first.len());
        assert(seq![normal_question(q)] + normal_questions(items).skip(from + 1)
            =~= normal_questions(items).skip(from));
    }
}

/// Records are read back from their wire form, one behind the other.
pub proof fn lemma_answers_round_trip(
    items: Seq<AnswerView>,
    from: int,
    b: Seq<u8>,
    limit: int,
    at: int,
)
    requires
        0 <= from <= items.len(),
        answers_ok(items),
        0 <= at,
        at + answers_wire(items, from).len() <= limit <= b.len(),
        b.subrange(at, at + answers_wire(items, from).len()) == answers_wire(items, from),
    ensures
        answers_at(b, limit, at, (items.len() - from) as nat) == Ok::<
            (Seq<AnswerView>, int),
            crate::error::DnsError,
        >((normal_answers(items).skip(from), at + answers_wire(items, from).len())),
    decreases items.len() - from,
{
    reveal(answers_wire);
    reveal(answers_at);
    if from >= items.len() {
        assert(normal_answers(items).skip(from) =~= Seq::<AnswerView>::empty());
    } else {
        let a = items[from];
        let first = answer_wire(a);
        let tail = answers_wire(items, from + 1);
        let wire = answers_wire(items, from);
        assert(answer_ok(a));
        assert(wire.subrange(0, first.len() as int) =~= first);
        assert(wire.subrange(first.len() as int, first.len() as int + tail.len() as int) =~= tail);
        lemma_part_stands(b, at, wire, 0, first);
        lemma_part_stands(b, at, wire, first.len() as int, tail);
        lemma_answer_round_trip(a, b, limit, at);
        lemma_answers_round_trip(items, from + 1, b, limit, at + first.len());
        assert(seq![normal_answer(a)] + normal_answers(items).skip(from + 1) =~= normal_answers(
            items,
        ).skip(from));
    }
}

/// A packet that can be read back from its wire form: the opcode fits its
/// four bits, the counts of the header are the lengths of the sections, no
/// type of a question is an `UNKNOWN` that holds the number of another
/// type, no record is of unknown type, and no name has an empty label or
/// one of more than 63 bytes.
pub open spec fn packet_ok(p: PacketView) -> bool {
    &&& p.header.opcode < 16
    &&& p.header == counted(p)
    &&& questions_ok(p.questions)
    &&& answers_ok(p.answers)
    &&& answers_ok(p.authorities)
    &&& answers_ok(p.resources)
}

/// A packet as it is read back from its wire form: each name is replaced
/// by its canonical text.
pub open spec fn normal_packet(p: PacketView) -> PacketView {
    PacketView {
        header: p.header,
        questions: normal_questions(p.questions),
        answers: normal_answers(p.answers),
        authorities: normal_answers(p.authorities),
        resources: normal_answers(p.resources),
    }
}

/// Reading is the inverse of writing, up to the case of names: a packet
/// that can be read back and whose wire form stands at the start of a
/// window is read as the packet it was written for, with each name in its
/// canonical text, and the reading ends where the wire form ends.
pub proof fn lemma_packet_round_trip(p: PacketView, b: Seq<u8>, limit: int)
    requires
        packet_ok(p),
        packet_wire(p).len() <= limit <= b.len(),
        limit <= BUF_LEN,
        b.subrange(0, packet_wire(p).len() as int) == packet_wire(p),
    ensures
        packet_at(b, limit, 0, true) == Ok::<(PacketView, int), crate::error::DnsError>(
            (normal_packet(p), packet_wire(p).len() as int),
        ),
{
    let wire = packet_wire(p);
    let w0 = header_wire(p.header);
    let w1 = questions_wire(p.questions, 0);
    let w2 = answers_wire(p.answers, 0);
    let w3 = answers_wire(p.authorities, 0);
    let w4 = answers_wire(p.resources, 0);
    let c1 = w0.len() as int;
    let c2 = c1 + w1.len();
    let c3 = c2 + w2.len();
    let c4 = c3 + w3.len();
    assert(w0.len() == HEADER_LEN);
    assert(wire.subrange(0, c1) =~= w0);
    assert(wire.subrange(c1, c2) =~= w1);
    assert(wire.subrange(c2, c3) =~= w2);
    assert(wire.subrange(c3, c4) =~= w3);
    assert(wire.subrange(c4, c4 + w4.len()) =~= w4);
    lemma_part_stands(b, 0, wire, 0, w0);
    lemma_part_stands(b, 0, wire, c1, w1);
    lemma_part_stands(b, 0, wire, c2, w2);
    lemma_part_stands(b, 0, wire, c3, w3);
    lemma_part_stands(b, 0, wire, c4, w4);
    lemma_header_round_trip(p.header, b, 0);
    lemma_questions_wire_len(p.questions, 0);
    lemma_answers_wire_len(p.answers, 0);
    lemma_answers_wire_len(p.authorities, 0);
    lemma_answers_wire_len(p.resources, 0);
    lemma_questions_round_trip(p.questions, 0, b, limit, c1);
    lemma_answers_round_trip(p.answers, 0, b, limit, c2);
    lemma_answers_round_trip(p.authorities, 0, b, limit, c3);
    lemma_answers_round_trip(p.resources, 0, b, limit, c4);
    assert(normal_questions(p.questions).skip(0) =~= normal_questions(p.questions));
    assert(normal_answers(p.answers).skip(0) =~= normal_answers(p.answers));
    assert(normal_answers(p.authorities).skip(0) =~= normal_answers(p.authorities));
    assert(normal_answers(p.resources).skip(0) =~= normal_answers(p.resources));
    assert(header_at(b, 0) == p.header);
    assert(p.header.questions as nat == p.questions.len());
    assert(p.header.answers as nat == p.answers.len());
    assert(p.header.authoritative_entries as nat == p.authorities.len());
    assert(p.header.resource_entries as nat == p.resources.len());
}

} // verus!
