//! Domain names on the wire: labels, and the pointers that stand for the
//! rest of a name.

use crate::dns::buf::{
    lemma_overwrite_keeps, lemma_overwrite_nothing, lemma_overwrite_one, lemma_overwrite_reads,
    lemma_overwrite_twice, overwrite, written, Buf,
};
use crate::error::DnsError;
use vstd::prelude::*;
use vstd::string::StringExecFns;
use vstd::utf8::{decode_utf8, encode_utf8, valid_utf8};

verus! {

/// The longest label that can be written, in bytes.
pub const MAX_LABEL: usize = 0x3F;

/// The number of compression pointers that are followed while one name is
/// read.
pub const MAX_JUMPS: usize = 512;

/// The byte that parts the labels of a dotted name.
pub const DOT: u8 = 0x2E;

/// A length byte from here on is the first byte of a pointer.
pub const POINTER: u8 = 0xC0;

/// The text that std's lossy conversion gives for `bytes`.
pub uninterp spec fn utf8_lossy(bytes: Seq<u8>) -> Seq<char>;

/// The text that std's lower-casing gives for `text`.
pub uninterp spec fn lowercase(text: Seq<char>) -> Seq<char>;

/// `String::from_utf8_lossy` of std: the text of `bytes`, with each invalid
/// sequence replaced as std does. Bytes that are valid UTF-8 are decoded as
/// they stand.
#[verifier::external_body]
fn lossy_string(bytes: &[u8]) -> (text: String)
    ensures
        text@ == utf8_lossy(bytes@),
        valid_utf8(bytes@) ==> text@ == decode_utf8(bytes@),
{
    String::from_utf8_lossy(bytes).into_owned()
}

/// `str::to_lowercase` of std: the lower-case form of `text`.
#[verifier::external_body]
fn lowercase_string(text: &str) -> (lower: String)
    ensures
        lower@ == lowercase(text@),
{
    text.to_lowercase()
}

/// The text that a label of these bytes is read as: its characters in lower
/// case. Bytes that are valid UTF-8 are their own characters; others are
/// what the lossy conversion makes of them.
pub open spec fn label_text(bytes: Seq<u8>) -> Seq<char> {
    lowercase(
        if valid_utf8(bytes) {
            decode_utf8(bytes)
        } else {
            utf8_lossy(bytes)
        },
    )
}

/// What stands between two labels of a name, and nothing before the first.
pub open spec fn separator(first: bool) -> Seq<char> {
    if first {
        Seq::empty()
    } else {
        seq!['.']
    }
}

/// The offset of the first dot of `s` at or behind `from`, or the length of
/// `s` where there is none.
#[verifier::opaque]
pub open spec fn label_end(s: Seq<u8>, from: int) -> int
    decreases s.len() - from,
{
    if from >= s.len() || s[from] == DOT {
        from
    } else {
        label_end(s, from + 1)
    }
}

/// The end of a label lies at or behind its start, and inside `s` where the
/// start does.
pub proof fn lemma_label_end_bounds(s: Seq<u8>, from: int)
    ensures
        from <= label_end(s, from),
        from <= s.len() ==> label_end(s, from) <= s.len(),
        label_end(s, from) < s.len() ==> s[label_end(s, from)] == DOT,
        forall|i: int| from <= i < label_end(s, from) ==> s[i] != DOT,
    decreases s.len() - from,
{
    reveal(label_end);
    if from >= s.len() || s[from] == DOT {
    } else {
        lemma_label_end_bounds(s, from + 1);
    }
}

/// The wire form of the labels of `s` from offset `from` on: each label
/// behind its length, and a zero byte at the end.
#[verifier::opaque]
pub open spec fn name_wire_from(s: Seq<u8>, from: int) -> Seq<u8>
    decreases s.len() - from,
{
    let end = label_end(s, from);
    let head = seq![(end - from) as u8] + s.subrange(from, end);
    if end >= s.len() {
        head + seq![0u8]
    } else {
        proof {
            lemma_label_end_bounds(s, from);
        }
        head + name_wire_from(s, end + 1)
    }
}

/// The wire form of the dotted name `s`. No pointers are written.
pub open spec fn name_wire(s: Seq<u8>) -> Seq<u8> {
    name_wire_from(s, 0)
}

/// The error that ends the writing of the labels of `s` from `from` on into
/// `room` bytes, label by label: a label that is too long, or the byte that
/// no longer fits, whichever comes first.
#[verifier::opaque]
pub open spec fn name_error_from(s: Seq<u8>, from: int, room: int) -> Option<DnsError>
    decreases s.len() - from,
{
    let end = label_end(s, from);
    let n = end - from;
    if n > MAX_LABEL {
        Some(DnsError::InvalidLabel)
    } else if 1 + n > room {
        Some(DnsError::BufferOverflow)
    } else if end >= s.len() {
        if 2 + n > room {
            Some(DnsError::BufferOverflow)
        } else {
            None
        }
    } else {
        proof {
            lemma_label_end_bounds(s, from);
        }
        name_error_from(s, end + 1, room - 1 - n)
    }
}

/// The error that ends the writing of the name `s` into `room` bytes, if
/// there is one.
pub open spec fn name_error(s: Seq<u8>, room: int) -> Option<DnsError> {
    name_error_from(s, 0, room)
}

/// The offset that a pointer of these two bytes names.
pub open spec fn pointer_target(first: u8, second: u8) -> int {
    (first - POINTER) * 256 + second
}

/// The text of the name that starts at offset `pos` of `b`, read inside a
/// window that ends at `limit`, with `jumps` pointers still allowed.
#[verifier::opaque]
pub open spec fn name_text(b: Seq<u8>, limit: int, pos: int, jumps: nat, first: bool) -> Result<
    Seq<char>,
    DnsError,
>
    decreases jumps, limit - pos,
{
    if pos < 0 || pos >= limit {
        Err(DnsError::BufferOverflow)
    } else if b[pos] >= POINTER {
        if pos + 1 >= limit {
            Err(DnsError::BufferOverflow)
        } else if jumps == 0 {
            Err(DnsError::TooManyJumps)
        } else {
            name_text(b, limit, pointer_target(b[pos], b[pos + 1]), (jumps - 1) as nat, first)
        }
    } else if b[pos] == 0 {
        Ok(Seq::empty())
    } else if pos + 1 + b[pos] > limit {
        Err(DnsError::BufferOverflow)
    } else {
        match name_text(b, limit, pos + 1 + b[pos], jumps, false) {
            Ok(rest) => Ok(
                separator(first) + label_text(b.subrange(pos + 1, pos + 1 + b[pos])) + rest,
            ),
            Err(e) => Err(e),
        }
    }
}

/// The offset behind the name that starts at `pos`: behind its zero byte, or
/// behind its first pointer.
#[verifier::opaque]
pub open spec fn name_end(b: Seq<u8>, limit: int, pos: int) -> int
    decreases limit - pos,
{
    if pos < 0 || pos >= limit {
        pos
    } else if b[pos] >= POINTER {
        pos + 2
    } else if b[pos] == 0 {
        pos + 1
    } else if pos + 1 + b[pos] > limit {
        pos
    } else {
        name_end(b, limit, pos + 1 + b[pos])
    }
}

/// `text` put before what `rest` gives; an error stays what it is.
pub open spec fn prepend(text: Seq<char>, rest: Result<Seq<char>, DnsError>) -> Result<
    Seq<char>,
    DnsError,
> {
    match rest {
        Ok(tail) => Ok(text + tail),
        Err(e) => Err(e),
    }
}

/// Refuses a label that is longer than 63 bytes.
pub fn label_len_check(len: usize) -> (r: Result<(), DnsError>)
    ensures
        r is Ok <==> len <= MAX_LABEL,
        r is Err ==> r == Err::<(), DnsError>(DnsError::InvalidLabel),
{
    if len > MAX_LABEL {
        return Err(DnsError::InvalidLabel);
    }
    Ok(())
}

impl<'a> Buf<'a> {
    /// Reads the name under the cursor and appends its text to `outstr`: the
    /// labels in lower case, with dots between them. The cursor moves behind
    /// the name, and only behind the first pointer where the name holds one.
    /// Where the name cannot be read, the cursor and `outstr` stay as they
    /// were.
    pub fn read_qname(&mut self, outstr: &mut String) -> (r: Result<(), DnsError>)
        requires
            old(self).wf(),
        ensures
            final(final(self).buf)@ == final(old(self).buf)@,
            final(self).wf(),
            final(self).bytes() == old(self).bytes(),
            match name_text(
                old(self).bytes(),
                old(self).limit(),
                old(self).pos as int,
                MAX_JUMPS as nat,
                true,
            ) {
                Ok(text) => r is Ok && final(outstr)@ == old(outstr)@ + text && final(self).pos
                    == name_end(old(self).bytes(), old(self).limit(), old(self).pos as int),
                Err(e) => r == Err::<(), DnsError>(e) && final(outstr)@ == old(outstr)@
                    && final(self).pos == old(self).pos,
            },
    {
        let ghost b = self.bytes();
        let ghost limit = self.limit();
        let ghost start = self.pos as int;
        let ghost out0 = outstr@;
        let mut pos: usize = self.pos;
        let mut after: usize = self.pos;
        let mut jumped = false;
        let mut jumps: usize = 0;
        let mut first = true;
        let mut name = String::new();
        assert(Seq::<char>::empty() + Seq::<char>::empty() =~= Seq::<char>::empty());
        loop
            invariant
                final(self.buf)@ == final(old(self).buf)@,
                self.bytes() == b,
                self.limit() == limit,
                self.pos == start,
                self.wf(),
                b == old(self).bytes(),
                limit == old(self).limit(),
                start == old(self).pos,
                out0 == old(outstr)@,
                outstr@ == out0,
                jumps <= MAX_JUMPS,
                name_text(b, limit, start, MAX_JUMPS as nat, true) == prepend(
                    name@,
                    name_text(b, limit, pos as int, (MAX_JUMPS - jumps) as nat, first),
                ),
                !jumped ==> name_end(b, limit, start) == name_end(b, limit, pos as int),
                jumped ==> after == name_end(b, limit, start) && after <= limit,
            decreases MAX_JUMPS - jumps, (if pos < limit { limit - pos } else { 0 }),
        {
            proof {
                reveal(name_text);
                reveal(name_end);
            }
            let len = self.get(pos)?;
            if len >= POINTER {
                let low = self.get(pos + 1)?;
                if jumps >= MAX_JUMPS {
                    return Err(DnsError::TooManyJumps);
                }
                if !jumped {
                    after = pos + 2;
                }
                pos = ((len - POINTER) as usize) * 256 + (low as usize);
                jumped = true;
                jumps += 1;
                continue ;
            }
            if len == 0 {
                if !jumped {
                    after = pos + 1;
                }
                assert(name@ + Seq::<char>::empty() =~= name@);
                self.seek(after);
                outstr.append(name.as_str());
                return Ok(());
            }
            let label = self.get_range(pos + 1, len as usize)?;
            let text = lowercase_string(lossy_string(label).as_str());
            let ghost name0 = name@;
            if !first {
                proof {
                    reveal_strlit(".");
                    assert("."@ =~= seq!['.']);
                }
                name.append(".");
            }
            name.append(text.as_str());
            proof {
                assert(name@ =~= name0 + (separator(first) + label_text(label@)));
                let rest = name_text(
                    b,
                    limit,
                    pos + 1 + len,
                    (MAX_JUMPS - jumps) as nat,
                    false,
                );
                if let Ok(tail) = rest {
                    assert(name0 + (separator(first) + label_text(label@) + tail) =~= name@
                        + tail);
                }
            }
            first = false;
            pos = pos + 1 + len as usize;
        }
    }

    /// Writes the dotted name `qname` under the cursor: each label behind
    /// its length, then a zero byte. Where a label is too long or the window
    /// is too short, what came before that is written and the call fails.
    pub fn write_qname(&mut self, qname: &str) -> (r: Result<(), DnsError>)
        requires
            old(self).wf(),
        ensures
            final(final(self).buf)@ == final(old(self).buf)@,
            final(self).wf(),
            written(
                old(self).bytes(),
                old(self).pos as int,
                final(self).bytes(),
                final(self).pos as int,
                r,
                name_wire(encode_utf8(qname@)),
                name_error(encode_utf8(qname@), old(self).limit() - old(self).pos),
                old(self).limit() - old(self).pos,
            ),
    {
        let bytes = qname.as_bytes();
        let total = bytes.len();
        let ghost s = bytes@;
        let ghost b0 = self.bytes();
        let ghost at = self.pos as int;
        let ghost limit = self.limit();
        let ghost done: Seq<u8> = Seq::empty();
        let mut from: usize = 0;
        proof {
            lemma_overwrite_nothing(b0, at);
            assert(done + name_wire_from(s, 0) =~= name_wire_from(s, 0));
        }
        loop
            invariant
                final(self.buf)@ == final(old(self).buf)@,
                s == bytes@,
                s == encode_utf8(qname@),
                b0 == old(self).bytes(),
                at == old(self).pos,
                limit == old(self).limit(),
                total == s.len(),
                from <= total,
                self.wf(),
                self.limit() == limit,
                self.bytes().len() == b0.len(),
                at + done.len() == self.pos,
                self.bytes() == overwrite(b0, at, done),
                done + name_wire_from(s, from as int) == name_wire_from(s, 0),
                name_error_from(s, 0, limit - at) == name_error_from(
                    s,
                    from as int,
                    limit - self.pos,
                ),
            decreases total - from,
        {
            proof {
                reveal(name_wire_from);
                reveal(name_error_from);
            }
            let mut end: usize = from;
            while end < total && bytes[end] != DOT
                invariant
                    final(self.buf)@ == final(old(self).buf)@,
                    s == bytes@,
                    total == s.len(),
                    from <= end <= total,
                    label_end(s, from as int) == label_end(s, end as int),
                decreases total - end,
            {
                proof {
                    reveal(label_end);
                }
                end += 1;
            }
            proof {
                reveal(label_end);
            }
            let len = end - from;
            let ghost room = limit - self.pos;
            proof {
                lemma_overwrite_reads(b0, at, done);
                lemma_overwrite_keeps(b0, at, done, limit);
            }
            label_len_check(len)?;
            let ghost before = self.bytes();
            self.write_u8(len as u8)?;
            let ghost head = done + seq![len as u8];
            proof {
                lemma_overwrite_one(before, at + done.len(), len as u8);
                lemma_overwrite_twice(b0, at, done, seq![len as u8]);
                assert(head + s.subrange(from as int, from as int) =~= head);
            }
            let mut k: usize = from;
            while k < end
                invariant
                    final(self.buf)@ == final(old(self).buf)@,
                    s == bytes@,
                    s == encode_utf8(qname@),
                    b0 == old(self).bytes(),
                    at == old(self).pos,
                    limit == old(self).limit(),
                    total == s.len(),
                    from <= k <= end <= total,
                    self.wf(),
                    self.limit() == limit,
                    self.bytes().len() == b0.len(),
                    at + head.len() + (k - from) == self.pos,
                    head.len() == done.len() + 1,
                    room == limit - (at + done.len()),
                    self.bytes() == overwrite(b0, at, head + s.subrange(from as int, k as int)),
                    end == label_end(s, from as int),
                    end - from <= MAX_LABEL,
                    name_error_from(s, 0, limit - at) == name_error_from(s, from as int, room),
                decreases end - k,
            {
                proof {
                    reveal(name_error_from);
                }
                let ghost cur = self.bytes();
                let ghost so_far = head + s.subrange(from as int, k as int);
                proof {
                    lemma_overwrite_reads(b0, at, so_far);
                    lemma_overwrite_keeps(b0, at, so_far, limit);
                }
                self.write_u8(bytes[k])?;
                proof {
                    lemma_overwrite_one(cur, at + so_far.len(), s[k as int]);
                    lemma_overwrite_twice(b0, at, so_far, seq![s[k as int]]);
                    assert(so_far + seq![s[k as int]] =~= head + s.subrange(
                        from as int,
                        k + 1,
                    ));
                }
                k += 1;
            }
            let ghost label = head + s.subrange(from as int, end as int);
            if end >= total {
                let ghost filled = self.bytes();
                proof {
                    lemma_overwrite_reads(b0, at, label);
                    lemma_overwrite_keeps(b0, at, label, limit);
                    assert(label + seq![0u8] =~= done + name_wire_from(s, from as int));
                }
                let r = self.write_u8(0);
                proof {
                    if r is Ok {
                        lemma_overwrite_one(filled, at + label.len(), 0u8);
                        lemma_overwrite_twice(b0, at, label, seq![0u8]);
                    }
                }
                return r;
            }
            proof {
                assert(label + name_wire_from(s, end + 1) =~= done + name_wire_from(
                    s,
                    from as int,
                ));
                done = label;
            }
            from = end + 1;
        }
    }
}

} // verus!
