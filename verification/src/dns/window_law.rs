//! Nothing outside the window is read: what is read from two byte
//! sequences that hold the same bytes inside the window is the same.

use crate::dns::buf::{window, BUF_LEN};
use crate::dns::header::HEADER_LEN;
use crate::dns::name::{name_end, name_text, MAX_JUMPS};
use crate::dns::packet::{answers_at, packet_at, questions_at};
use crate::dns::question::question_at;
use crate::dns::record::{answer_at, groups_at, RECORD_FIXED};
use vstd::prelude::*;

verus! {

/// `a` and `b` hold the same bytes at every offset below `limit`.
pub open spec fn agree(a: Seq<u8>, b: Seq<u8>, limit: int) -> bool {
    &&& limit <= a.len()
    &&& limit <= b.len()
    &&& forall|i: int| 0 <= i < limit ==> a[i] == b[i]
}

/// The text of a name depends on no byte outside the window.
pub proof fn lemma_name_text_window(
    a: Seq<u8>,
    b: Seq<u8>,
    limit: int,
    pos: int,
    jumps: nat,
    first: bool,
)
    requires
        agree(a, b, limit),
    ensures
        name_text(a, limit, pos, jumps, first) == name_text(b, limit, pos, jumps, first),
    decreases jumps, limit - pos,
{
    reveal(name_text);
    if pos < 0 || pos >= limit {
    } else if a[pos] >= crate::dns::name::POINTER {
        if pos + 1 < limit && jumps > 0 {
            lemma_name_text_window(
                a,
                b,
                limit,
                crate::dns::name::pointer_target(a[pos], a[pos + 1]),
                (jumps - 1) as nat,
                first,
            );
        }
    } else if a[pos] == 0 {
    } else if pos + 1 + a[pos] > limit {
    } else {
        lemma_name_text_window(a, b, limit, pos + 1 + a[pos], jumps, false);
        assert(a.subrange(pos + 1, pos + 1 + a[pos]) =~= b.subrange(pos + 1, pos + 1 + b[pos]));
    }
}

/// The end of a name depends on no byte outside the window.
pub proof fn lemma_name_end_window(a: Seq<u8>, b: Seq<u8>, limit: int, pos: int)
    requires
        agree(a, b, limit),
    ensures
        name_end(a, limit, pos) == name_end(b, limit, pos),
        pos <= limit ==> name_end(a, limit, pos) <= limit + 1,
    decreases limit - pos,
{
    reveal(name_end);
    if pos < 0 || pos >= limit {
    } else if a[pos] >= crate::dns::name::POINTER {
    } else if a[pos] == 0 {
    } else if pos + 1 + a[pos] > limit {
    } else {
        lemma_name_end_window(a, b, limit, pos + 1 + a[pos]);
    }
}

/// A question depends on no byte outside the window.
pub proof fn lemma_question_window(a: Seq<u8>, b: Seq<u8>, limit: int, pos: int)
    requires
        agree(a, b, limit),
        0 <= pos,
    ensures
        question_at(a, limit, pos) == question_at(b, limit, pos),
{
    lemma_name_text_window(a, b, limit, pos, MAX_JUMPS as nat, true);
    lemma_name_end_window(a, b, limit, pos);
    lemma_name_end_from(a, limit, pos);
}

/// A name ends at or behind its start.
pub proof fn lemma_name_end_from(a: Seq<u8>, limit: int, pos: int)
    ensures
        pos <= name_end(a, limit, pos),
    decreases limit - pos,
{
    reveal(name_end);
    if pos < 0 || pos >= limit {
    } else if a[pos] >= crate::dns::name::POINTER {
    } else if a[pos] == 0 {
    } else if pos + 1 + a[pos] > limit {
    } else {
        lemma_name_end_from(a, limit, pos + 1 + a[pos]);
    }
}

/// A record depends on no byte outside the window.
pub proof fn lemma_answer_window(a: Seq<u8>, b: Seq<u8>, limit: int, pos: int)
    requires
        agree(a, b, limit),
        0 <= pos,
    ensures
        answer_at(a, limit, pos) == answer_at(b, limit, pos),
{
    lemma_name_text_window(a, b, limit, pos, MAX_JUMPS as nat, true);
    lemma_name_end_window(a, b, limit, pos);
    lemma_name_end_from(a, limit, pos);
    let p = name_end(a, limit, pos);
    if p + RECORD_FIXED <= limit {
        let d = p + RECORD_FIXED;
        lemma_name_text_window(a, b, limit, d, MAX_JUMPS as nat, true);
        lemma_name_end_window(a, b, limit, d);
        lemma_name_text_window(a, b, limit, d + 2, MAX_JUMPS as nat, true);
        lemma_name_end_window(a, b, limit, d + 2);
        if d + 4 <= limit {
            assert(a.subrange(d, d + 4) =~= b.subrange(d, d + 4));
        }
        if d + 16 <= limit {
            assert(groups_at(a, d) =~= groups_at(b, d));
        }
    }
}

/// The end of what is read as a question or a record lies at or behind its
/// start.
pub proof fn lemma_entries_forward(a: Seq<u8>, limit: int, pos: int)
    requires
        0 <= pos,
    ensures
        question_at(a, limit, pos) matches Ok((_, next)) ==> pos <= next,
        answer_at(a, limit, pos) matches Ok((_, next)) ==> pos <= next,
{
    lemma_name_end_from(a, limit, pos);
    let p = name_end(a, limit, pos);
    lemma_name_end_from(a, limit, p + RECORD_FIXED);
    lemma_name_end_from(a, limit, p + RECORD_FIXED + 2);
}

/// A section of questions depends on no byte outside the window.
pub proof fn lemma_questions_window(a: Seq<u8>, b: Seq<u8>, limit: int, pos: int, n: nat)
    requires
        agree(a, b, limit),
        0 <= pos,
    ensures
        questions_at(a, limit, pos, n) == questions_at(b, limit, pos, n),
        questions_at(a, limit, pos, n) matches Ok((_, end)) ==> pos <= end,
    decreases n,
{
    reveal(questions_at);
    if n > 0 {
        lemma_question_window(a, b, limit, pos);
        lemma_entries_forward(a, limit, pos);
        if let Ok((_, next)) = question_at(a, limit, pos) {
            lemma_questions_window(a, b, limit, next, (n - 1) as nat);
        }
    }
}

/// A section of records depends on no byte outside the window.
pub proof fn lemma_answers_window(a: Seq<u8>, b: Seq<u8>, limit: int, pos: int, n: nat)
    requires
        agree(a, b, limit),
        0 <= pos,
    ensures
        answers_at(a, limit, pos, n) == answers_at(b, limit, pos, n),
        answers_at(a, limit, pos, n) matches Ok((_, end)) ==> pos <= end,
    decreases n,
{
    reveal(answers_at);
    if n > 0 {
        lemma_answer_window(a, b, limit, pos);
        lemma_entries_forward(a, limit, pos);
        if let Ok((_, next)) = answer_at(a, limit, pos) {
            lemma_answers_window(a, b, limit, next, (n - 1) as nat);
        }
    }
}

/// Reading a packet reads nothing outside the window: two byte sequences
/// that hold the same bytes below `limit` are read as the same packet, or
/// fail with the same error. A window ends at offset 512 at the latest, so
/// no byte from there on has a part in what is read.
pub proof fn lemma_packet_window(
    a: Seq<u8>,
    b: Seq<u8>,
    limit: int,
    pos: int,
    with_answers: bool,
)
    requires
        agree(a, b, limit),
        0 <= pos,
    ensures
        packet_at(a, limit, pos, with_answers) == packet_at(b, limit, pos, with_answers),
{
    if pos + HEADER_LEN <= limit {
        let header = crate::dns::header::header_at(a, pos);
        assert(header == crate::dns::header::header_at(b, pos));
        let c0 = pos + HEADER_LEN;
        lemma_questions_window(a, b, limit, c0, header.questions as nat);
        if let Ok((_, c1)) = questions_at(a, limit, c0, header.questions as nat) {
            if with_answers {
                lemma_answers_window(a, b, limit, c1, header.answers as nat);
            }
            let second = if with_answers {
                answers_at(a, limit, c1, header.answers as nat)
            } else {
                Ok((Seq::empty(), c1))
            };
            if let Ok((_, c2)) = second {
                lemma_answers_window(a, b, limit, c2, header.authoritative_entries as nat);
                if let Ok((_, c3)) = answers_at(
                    a,
                    limit,
                    c2,
                    header.authoritative_entries as nat,
                ) {
                    lemma_answers_window(a, b, limit, c3, header.resource_entries as nat);
                }
            }
        }
    }
}

/// No byte at offset 512 or behind it has a part in what is read from a
/// slice: two slices that hold the same bytes below that offset are read as
/// the same packet, or fail with the same error.
pub proof fn lemma_reads_below_512(a: Seq<u8>, b: Seq<u8>, with_answers: bool)
    requires
        a.len() >= BUF_LEN,
        b.len() >= BUF_LEN,
        a.subrange(0, BUF_LEN as int) == b.subrange(0, BUF_LEN as int),
    ensures
        packet_at(a, window(a.len()), 0, with_answers) == packet_at(
            b,
            window(b.len()),
            0,
            with_answers,
        ),
{
    assert forall|i: int| 0 <= i < BUF_LEN implies a[i] == b[i] by {
        assert(a.subrange(0, BUF_LEN as int)[i] == a[i]);
        assert(b.subrange(0, BUF_LEN as int)[i] == b[i]);
    }
    lemma_packet_window(a, b, BUF_LEN as int, 0, with_answers);
}

} // verus!
