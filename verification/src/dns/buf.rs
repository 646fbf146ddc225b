//! A byte window with a cursor.

use crate::error::DnsError;
use vstd::prelude::*;

verus! {

/// No read or write goes past this offset, however long the slice is.
pub const BUF_LEN: usize = 512;

/// The value of two bytes in network order.
pub open spec fn be16(hi: u8, lo: u8) -> u16 {
    (hi as int * 256 + lo as int) as u16
}

/// The value of four bytes in network order.
pub open spec fn be32(b0: u8, b1: u8, b2: u8, b3: u8) -> u32 {
    (b0 as int * 0x100_0000 + b1 as int * 0x1_0000 + b2 as int * 0x100 + b3 as int) as u32
}

/// The two bytes of `val` in network order.
pub open spec fn be16_bytes(val: u16) -> Seq<u8> {
    seq![(val / 256) as u8, (val % 256) as u8]
}

/// The four bytes of `val` in network order.
pub open spec fn be32_bytes(val: u32) -> Seq<u8> {
    seq![
        (val / 0x100_0000) as u8,
        ((val / 0x1_0000) % 256) as u8,
        ((val / 0x100) % 256) as u8,
        (val % 256) as u8,
    ]
}

/// `bytes` with `data` written over it from offset `at` on.
#[verifier::opaque]
pub open spec fn overwrite(bytes: Seq<u8>, at: int, data: Seq<u8>) -> Seq<u8> {
    Seq::new(
        bytes.len(),
        |i: int|
            if at <= i < at + data.len() {
                data[i - at]
            } else {
                bytes[i]
            },
    )
}

/// Writing `first` and then `second` behind it is writing the two as one.
pub proof fn lemma_overwrite_twice(bytes: Seq<u8>, at: int, first: Seq<u8>, second: Seq<u8>)
    requires
        0 <= at,
    ensures
        overwrite(overwrite(bytes, at, first), at + first.len(), second) == overwrite(
            bytes,
            at,
            first + second,
        ),
{
    reveal(overwrite);
    assert(overwrite(overwrite(bytes, at, first), at + first.len(), second) =~= overwrite(
        bytes,
        at,
        first + second,
    ));
}

/// Writing `second` over the start of what was written is as if it had been
/// written there at once.
pub proof fn lemma_overwrite_again(
    bytes: Seq<u8>,
    at: int,
    first: Seq<u8>,
    rest: Seq<u8>,
    second: Seq<u8>,
)
    requires
        0 <= at,
        first.len() == second.len(),
    ensures
        overwrite(overwrite(bytes, at, first + rest), at, second) == overwrite(
            bytes,
            at,
            second + rest,
        ),
{
    reveal(overwrite);
    assert(overwrite(overwrite(bytes, at, first + rest), at, second) =~= overwrite(
        bytes,
        at,
        second + rest,
    ));
}

/// Writing one byte is an update of the sequence at that offset.
pub proof fn lemma_overwrite_one(bytes: Seq<u8>, at: int, val: u8)
    requires
        0 <= at < bytes.len(),
    ensures
        bytes.update(at, val) == overwrite(bytes, at, seq![val]),
{
    reveal(overwrite);
    assert(bytes.update(at, val) =~= overwrite(bytes, at, seq![val]));
}

/// Writing nothing changes nothing.
pub proof fn lemma_overwrite_nothing(bytes: Seq<u8>, at: int)
    ensures
        overwrite(bytes, at, Seq::empty()) == bytes,
{
    reveal(overwrite);
    assert(overwrite(bytes, at, Seq::empty()) =~= bytes);
}

/// What was written can be read back where it fits, and nothing before it
/// has changed.
pub proof fn lemma_overwrite_reads(bytes: Seq<u8>, at: int, data: Seq<u8>)
    requires
        0 <= at <= bytes.len(),
    ensures
        overwrite(bytes, at, data).len() == bytes.len(),
        at + data.len() <= bytes.len() ==> overwrite(bytes, at, data).subrange(
            at,
            at + data.len(),
        ) == data,
        overwrite(bytes, at, data).subrange(0, at) == bytes.subrange(0, at),
{
    reveal(overwrite);
    if at + data.len() <= bytes.len() {
        assert(overwrite(bytes, at, data).subrange(at, at + data.len()) =~= data);
    }
    assert(overwrite(bytes, at, data).subrange(0, at) =~= bytes.subrange(0, at));
}

/// An overwrite changes nothing behind what it writes.
pub proof fn lemma_overwrite_keeps(bytes: Seq<u8>, at: int, data: Seq<u8>, from: int)
    requires
        0 <= at,
        at + data.len() <= from <= bytes.len(),
    ensures
        overwrite(bytes, at, data).subrange(from, bytes.len() as int) == bytes.subrange(
            from,
            bytes.len() as int,
        ),
{
    reveal(overwrite);
    assert(overwrite(bytes, at, data).subrange(from, bytes.len() as int) =~= bytes.subrange(
        from,
        bytes.len() as int,
    ));
}

/// The error of writing `n` bytes into `room` bytes, if they do not fit.
pub open spec fn fixed_error(n: int, room: int) -> Option<DnsError> {
    if n > room {
        Some(DnsError::BufferOverflow)
    } else {
        None
    }
}

/// The first of two errors that may come one behind the other.
pub open spec fn first_error(a: Option<DnsError>, b: Option<DnsError>) -> Option<DnsError> {
    if a is Some {
        a
    } else {
        b
    }
}

/// How a write that ended in `r` has changed a window that had `room`
/// bytes left: from the bytes `b0` with the cursor at `c0` to the bytes
/// `b1` with the cursor at `c1`. With no `error`, `wire` has been written
/// at `c0` and the cursor stands behind it. With one, the write has failed
/// with it: the cursor has not moved back and stands at the end of the
/// window where the window was too short, and no byte before `c0` or
/// behind the window has changed.
pub open spec fn written(
    b0: Seq<u8>,
    c0: int,
    b1: Seq<u8>,
    c1: int,
    r: Result<(), DnsError>,
    wire: Seq<u8>,
    error: Option<DnsError>,
    room: int,
) -> bool {
    &&& b1.len() == b0.len()
    &&& match error {
        None => r is Ok && b1 == overwrite(b0, c0, wire) && c1 == c0 + wire.len() && wire.len()
            <= room,
        Some(e) => {
            &&& r == Err::<(), DnsError>(e)
            &&& c0 <= c1 <= c0 + room
            &&& e == DnsError::BufferOverflow ==> c1 == c0 + room
            &&& b1.subrange(0, c0) == b0.subrange(0, c0)
            &&& b1.subrange(c0 + room, b1.len() as int) == b0.subrange(
                c0 + room,
                b0.len() as int,
            )
        },
    }
}

/// A write that went well and a second one behind it are one write of the
/// two wire forms, which ends as the second does.
pub proof fn lemma_written_then(
    b0: Seq<u8>,
    c0: int,
    b1: Seq<u8>,
    c1: int,
    w1: Seq<u8>,
    b2: Seq<u8>,
    c2: int,
    r: Result<(), DnsError>,
    w2: Seq<u8>,
    e2: Option<DnsError>,
    room: int,
)
    requires
        0 <= c0,
        c0 + room <= b0.len(),
        written(b0, c0, b1, c1, Ok(()), w1, None, room),
        written(b1, c1, b2, c2, r, w2, e2, room - w1.len()),
    ensures
        written(b0, c0, b2, c2, r, w1 + w2, e2, room),
{
    lemma_overwrite_twice(b0, c0, w1, w2);
    lemma_overwrite_reads(b0, c0, w1);
    if e2 is Some {
        let end = c0 + room;
        let len = b0.len() as int;
        assert(b2.subrange(0, c0) =~= b2.subrange(0, c1).subrange(0, c0));
        assert(b1.subrange(0, c0) =~= b1.subrange(0, c1).subrange(0, c0));
        lemma_overwrite_keeps(b0, c0, w1, end);
    }
}

/// The end of the window over a slice of `len` bytes.
pub open spec fn window(len: nat) -> int {
    if len < BUF_LEN {
        len as int
    } else {
        BUF_LEN as int
    }
}

/// A mutable byte window of at most 512 bytes with a cursor.
///
/// The window borrows its slice. Every function that takes a window by
/// `&mut` states that the slice under it is still the same one afterwards
/// (`final(final(w).buf)@ == final(old(w).buf)@`), so that the owner of the
/// slice knows what it holds once the window is given up: the bytes that
/// the window held last.
pub struct Buf<'a> {
    pub buf: &'a mut [u8],
    pub pos: usize,
}

/// The error of every read or write that would pass the end of the window.
pub fn eof_err() -> (e: DnsError)
    ensures
        e == DnsError::BufferOverflow,
{
    DnsError::BufferOverflow
}

impl<'a> Buf<'a> {
    /// The bytes of the slice under the window.
    pub open spec fn bytes(&self) -> Seq<u8> {
        self.buf@
    }

    /// The offset at which the window ends: the slice's length, or 512 if the
    /// slice is longer.
    pub open spec fn limit(&self) -> int {
        window(self.bytes().len())
    }

    /// The cursor stands inside the window or at its end.
    pub open spec fn wf(&self) -> bool {
        self.pos <= self.limit()
    }

    /// A window over `buf` with the cursor at its start.
    pub fn new(buf: &'a mut [u8]) -> (r: Self)
        ensures
            r.pos == 0,
            r.bytes() == old(buf)@,
            final(r.buf)@ == final(buf)@,
            r.wf(),
    {
        Buf { buf, pos: 0 }
    }

    /// The end of the window, see [`Buf::limit`].
    pub fn end(&self) -> (n: usize)
        ensures
            n == self.limit(),
    {
        let len = self.buf.len();
        if len < BUF_LEN {
            len
        } else {
            BUF_LEN
        }
    }

    /// The bytes before the cursor.
    pub fn as_slice(&self) -> (r: &[u8])
        requires
            self.wf(),
        ensures
            r@ == self.bytes().subrange(0, self.pos as int),
    {
        let whole: &[u8] = &*self.buf;
        vstd::slice::slice_subrange(whole, 0, self.pos)
    }

    /// Moves the cursor forward by `steps`.
    pub fn step(&mut self, steps: usize)
        requires
            old(self).pos + steps <= old(self).limit(),
        ensures
            final(final(self).buf)@ == final(old(self).buf)@,
            final(self).pos == old(self).pos + steps,
            final(self).bytes() == old(self).bytes(),
    {
        self.pos += steps;
    }

    /// Puts the cursor at `pos`.
    pub fn seek(&mut self, pos: usize)
        requires
            pos <= old(self).limit(),
        ensures
            final(final(self).buf)@ == final(old(self).buf)@,
            final(self).pos == pos,
            final(self).bytes() == old(self).bytes(),
    {
        self.pos = pos;
    }

    /// Reads the byte under the cursor and moves past it.
    pub fn read(&mut self) -> (r: Result<u8, DnsError>)
        requires
            old(self).wf(),
        ensures
            final(final(self).buf)@ == final(old(self).buf)@,
            final(self).bytes() == old(self).bytes(),
            r is Ok <==> old(self).pos < old(self).limit(),
            r is Err ==> r == Err::<u8, DnsError>(DnsError::BufferOverflow) && final(self).pos
                == old(self).pos,
            r is Ok ==> r == Ok::<u8, DnsError>(old(self).bytes()[old(self).pos as int])
                && final(self).pos == old(self).pos + 1,
    {
        if self.pos >= self.end() {
            return Err(eof_err());
        }
        let res = self.buf[self.pos];
        self.pos += 1;
        Ok(res)
    }

    /// The byte at offset `pos`; the cursor stays.
    pub fn get(&self, pos: usize) -> (r: Result<u8, DnsError>)
        ensures
            r is Ok <==> pos < self.limit(),
            r is Err ==> r == Err::<u8, DnsError>(DnsError::BufferOverflow),
            r is Ok ==> r == Ok::<u8, DnsError>(self.bytes()[pos as int]),
    {
        if pos >= self.end() {
            return Err(eof_err());
        }
        Ok(self.buf[pos])
    }

    /// The `len` bytes from offset `start` on; the cursor stays.
    pub fn get_range(&self, start: usize, len: usize) -> (r: Result<&[u8], DnsError>)
        ensures
            r is Ok <==> start + len <= self.limit(),
            r is Err ==> r == Err::<&[u8], DnsError>(DnsError::BufferOverflow),
            r is Ok ==> r->Ok_0@ == self.bytes().subrange(start as int, start + len),
    {
        let end = self.end();
        if start > end || len > end - start {
            return Err(eof_err());
        }
        let whole: &[u8] = &*self.buf;
        Ok(vstd::slice::slice_subrange(whole, start, start + len))
    }

    /// Reads two bytes in network order.
    pub fn read_u16(&mut self) -> (r: Result<u16, DnsError>)
        requires
            old(self).wf(),
        ensures
            final(final(self).buf)@ == final(old(self).buf)@,
            final(self).bytes() == old(self).bytes(),
            r is Ok <==> old(self).pos + 2 <= old(self).limit(),
            r is Err ==> r == Err::<u16, DnsError>(DnsError::BufferOverflow) && final(self).pos
                == old(self).pos,
            r is Ok ==> r->Ok_0 == be16(
                old(self).bytes()[old(self).pos as int],
                old(self).bytes()[old(self).pos + 1],
            ) && final(self).pos == old(self).pos + 2,
    {
        if self.end() - self.pos < 2 {
            return Err(eof_err());
        }
        let hi = self.read()?;
        let lo = self.read()?;
        Ok((hi as u16) * 256 + (lo as u16))
    }

    /// Reads four bytes in network order.
    pub fn read_u32(&mut self) -> (r: Result<u32, DnsError>)
        requires
            old(self).wf(),
        ensures
            final(final(self).buf)@ == final(old(self).buf)@,
            final(self).bytes() == old(self).bytes(),
            r is Ok <==> old(self).pos + 4 <= old(self).limit(),
            r is Err ==> r == Err::<u32, DnsError>(DnsError::BufferOverflow) && final(self).pos
                == old(self).pos,
            r is Ok ==> r->Ok_0 == be32(
                old(self).bytes()[old(self).pos as int],
                old(self).bytes()[old(self).pos + 1],
                old(self).bytes()[old(self).pos + 2],
                old(self).bytes()[old(self).pos + 3],
            ) && final(self).pos == old(self).pos + 4,
    {
        if self.end() - self.pos < 4 {
            return Err(eof_err());
        }
        let b0 = self.read()?;
        let b1 = self.read()?;
        let b2 = self.read()?;
        let b3 = self.read()?;
        Ok((b0 as u32) * 0x100_0000 + (b1 as u32) * 0x1_0000 + (b2 as u32) * 0x100 + (b3 as u32))
    }

    /// Writes `val` under the cursor and moves past it.
    pub fn write(&mut self, val: u8) -> (r: Result<(), DnsError>)
        requires
            old(self).wf(),
        ensures
            final(final(self).buf)@ == final(old(self).buf)@,
            final(self).wf(),
            r is Ok <==> old(self).pos < old(self).limit(),
            r is Err ==> r == Err::<(), DnsError>(DnsError::BufferOverflow) && final(self).pos
                == old(self).pos && final(self).bytes() == old(self).bytes(),
            r is Ok ==> final(self).pos == old(self).pos + 1 && final(self).bytes() == old(
                self,
            ).bytes().update(old(self).pos as int, val),
            written(
                old(self).bytes(),
                old(self).pos as int,
                final(self).bytes(),
                final(self).pos as int,
                r,
                seq![val],
                fixed_error(1, old(self).limit() - old(self).pos),
                old(self).limit() - old(self).pos,
            ),
    {
        if self.pos >= self.end() {
            return Err(eof_err());
        }
        proof {
            lemma_overwrite_one(self.bytes(), self.pos as int, val);
        }
        self.buf[self.pos] = val;
        self.pos += 1;
        Ok(())
    }

    /// Writes one byte, as [`Buf::write`] does.
    pub fn write_u8(&mut self, val: u8) -> (r: Result<(), DnsError>)
        requires
            old(self).wf(),
        ensures
            final(final(self).buf)@ == final(old(self).buf)@,
            final(self).wf(),
            r is Ok <==> old(self).pos < old(self).limit(),
            r is Err ==> r == Err::<(), DnsError>(DnsError::BufferOverflow) && final(self).pos
                == old(self).pos && final(self).bytes() == old(self).bytes(),
            r is Ok ==> final(self).pos == old(self).pos + 1 && final(self).bytes() == old(
                self,
            ).bytes().update(old(self).pos as int, val),
            written(
                old(self).bytes(),
                old(self).pos as int,
                final(self).bytes(),
                final(self).pos as int,
                r,
                seq![val],
                fixed_error(1, old(self).limit() - old(self).pos),
                old(self).limit() - old(self).pos,
            ),
    {
        self.write(val)
    }

    /// Writes `val` as two bytes in network order. Where only one byte is
    /// left in the window, that byte is written before the call fails.
    pub fn write_u16(&mut self, val: u16) -> (r: Result<(), DnsError>)
        requires
            old(self).wf(),
        ensures
            final(final(self).buf)@ == final(old(self).buf)@,
            final(self).wf(),
            written(
                old(self).bytes(),
                old(self).pos as int,
                final(self).bytes(),
                final(self).pos as int,
                r,
                be16_bytes(val),
                fixed_error(2, old(self).limit() - old(self).pos),
                old(self).limit() - old(self).pos,
            ),
    {
        let ghost b0 = self.bytes();
        let ghost c0 = self.pos as int;
        let ghost room = self.limit() - self.pos;
        let hi = (val / 256) as u8;
        let lo = (val % 256) as u8;
        self.write(hi)?;
        let ghost b1 = self.bytes();
        let r = self.write(lo);
        proof {
            lemma_written_then(
                b0,
                c0,
                b1,
                c0 + 1,
                seq![hi],
                self.bytes(),
                self.pos as int,
                r,
                seq![lo],
                fixed_error(1, room - 1),
                room,
            );
            assert(seq![hi] + seq![lo] =~= be16_bytes(val));
        }
        r
    }

    /// Writes `val` as four bytes in network order. The bytes that still fit
    /// are written before the call fails.
    pub fn write_u32(&mut self, val: u32) -> (r: Result<(), DnsError>)
        requires
            old(self).wf(),
        ensures
            final(final(self).buf)@ == final(old(self).buf)@,
            final(self).wf(),
            written(
                old(self).bytes(),
                old(self).pos as int,
                final(self).bytes(),
                final(self).pos as int,
                r,
                be32_bytes(val),
                fixed_error(4, old(self).limit() - old(self).pos),
                old(self).limit() - old(self).pos,
            ),
    {
        let ghost b0 = self.bytes();
        let ghost c0 = self.pos as int;
        let ghost room = self.limit() - self.pos;
        let v0 = (val / 0x100_0000) as u8;
        let v1 = ((val / 0x1_0000) % 256) as u8;
        let v2 = ((val / 0x100) % 256) as u8;
        let v3 = (val % 256) as u8;
        self.write(v0)?;
        let ghost b1 = self.bytes();
        let r = self.write(v1);
        proof {
            lemma_written_then(
                b0,
                c0,
                b1,
                c0 + 1,
                seq![v0],
                self.bytes(),
                self.pos as int,
                r,
                seq![v1],
                fixed_error(1, room - 1),
                room,
            );
            assert(seq![v0] + seq![v1] =~= seq![v0, v1]);
        }
        r?;
        let ghost b2 = self.bytes();
        let r = self.write(v2);
        proof {
            lemma_written_then(
                b0,
                c0,
                b2,
                c0 + 2,
                seq![v0, v1],
                self.bytes(),
                self.pos as int,
                r,
                seq![v2],
                fixed_error(1, room - 2),
                room,
            );
            assert(seq![v0, v1] + seq![v2] =~= seq![v0, v1, v2]);
        }
        r?;
        let ghost b3 = self.bytes();
        let r = self.write(v3);
        proof {
            lemma_written_then(
                b0,
                c0,
                b3,
                c0 + 3,
                seq![v0, v1, v2],
                self.bytes(),
                self.pos as int,
                r,
                seq![v3],
                fixed_error(1, room - 3),
                room,
            );
            assert(seq![v0, v1, v2] + seq![v3] =~= be32_bytes(val));
        }
        r
    }

    /// Puts `val` at offset `pos`; the cursor stays.
    pub fn set(&mut self, pos: usize, val: u8)
        requires
            pos < old(self).bytes().len(),
        ensures
            final(final(self).buf)@ == final(old(self).buf)@,
            final(self).pos == old(self).pos,
            final(self).bytes() == old(self).bytes().update(pos as int, val),
    {
        self.buf[pos] = val;
    }

    /// Puts `val` at offsets `pos` and `pos + 1` in network order; the cursor
    /// stays.
    pub fn set_u16(&mut self, pos: usize, val: u16)
        requires
            pos + 1 < old(self).bytes().len(),
        ensures
            final(final(self).buf)@ == final(old(self).buf)@,
            final(self).pos == old(self).pos,
            final(self).bytes().len() == old(self).bytes().len(),
            final(self).bytes() == overwrite(old(self).bytes(), pos as int, be16_bytes(val)),
    {
        proof {
            vstd::slice::axiom_spec_len(&*self.buf);
        }
        let ghost b0 = self.bytes();
        self.set(pos, (val / 256) as u8);
        let ghost b1 = self.bytes();
        self.set(pos + 1, (val % 256) as u8);
        proof {
            lemma_overwrite_one(b0, pos as int, (val / 256) as u8);
            lemma_overwrite_one(b1, pos + 1, (val % 256) as u8);
            lemma_overwrite_twice(b0, pos as int, seq![(val / 256) as u8], seq![(val % 256) as u8]);
            assert(seq![(val / 256) as u8] + seq![(val % 256) as u8] =~= be16_bytes(val));
        }
    }
}

} // verus!
