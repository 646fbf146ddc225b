//! The engine of a pipelined DNS-over-TLS connection: length framing, the
//! queue of pending replies and what the connection is to be watched for.
//! Reading from and writing to the stream is left to the owner of the
//! connection, who fills `buf_read` and empties `buf_write`.

use crate::dns::buf::{be16, be16_bytes};
use std::collections::VecDeque;
use vstd::prelude::*;

verus! {

#[verifier::external_type_specification]
#[verifier::external_body]
pub struct ExPagedBytesMut<const PAGE_SIZE: usize>(xitca_io::bytes::PagedBytesMut<PAGE_SIZE>);

#[verifier::external_type_specification]
#[verifier::external_body]
pub struct ExWriteBuf(xitca_io::bytes::WriteBuf);

/// The bytes that a read buffer holds, oldest first.
pub uninterp spec fn read_bytes(buf: xitca_io::bytes::PagedBytesMut<4096>) -> Seq<u8>;

/// The bytes that a write buffer holds, oldest first.
pub uninterp spec fn write_bytes(buf: xitca_io::bytes::WriteBuf) -> Seq<u8>;

/// Whether a write buffer still waits for a flush of what it has handed
/// on.
pub uninterp spec fn flush_wanted(buf: xitca_io::bytes::WriteBuf) -> bool;

/// `PagedBytesMut::new` of xitca-io: a read buffer that holds nothing.
#[verifier::external_body]
fn read_buf_new() -> (buf: xitca_io::bytes::PagedBytesMut<4096>)
    ensures
        read_bytes(buf) == Seq::<u8>::empty(),
{
    xitca_io::bytes::PagedBytesMut::new()
}

/// `Buf::chunk` of xitca-io's read buffer: all the bytes that it holds.
#[verifier::external_body]
fn read_buf_chunk(buf: &xitca_io::bytes::PagedBytesMut<4096>) -> (chunk: &[u8])
    ensures
        chunk@ == read_bytes(*buf),
{
    xitca_io::bytes::Buf::chunk(buf)
}

/// `Buf::advance` of xitca-io's read buffer: the first `cnt` bytes leave
/// it. It panics where the buffer holds fewer.
#[verifier::external_body]
fn read_buf_advance(buf: &mut xitca_io::bytes::PagedBytesMut<4096>, cnt: usize)
    requires
        cnt <= read_bytes(*old(buf)).len(),
    ensures
        read_bytes(*final(buf)) == read_bytes(*old(buf)).skip(cnt as int),
{
    xitca_io::bytes::Buf::advance(buf, cnt)
}

/// `PagedBytesMut::split_to` of xitca-io: the first `at` bytes leave the
/// buffer and are handed out. It panics where the buffer holds fewer.
#[verifier::external_body]
fn read_buf_split_to(buf: &mut xitca_io::bytes::PagedBytesMut<4096>, at: usize) -> (head: Vec<u8>)
    requires
        at <= read_bytes(*old(buf)).len(),
    ensures
        head@ == read_bytes(*old(buf)).take(at as int),
        read_bytes(*final(buf)) == read_bytes(*old(buf)).skip(at as int),
{
    buf.split_to(at).to_vec()
}

/// `PagedBytesMut::split` of xitca-io, whose result is dropped: the buffer
/// holds nothing afterwards.
#[verifier::external_body]
fn read_buf_clear(buf: &mut xitca_io::bytes::PagedBytesMut<4096>)
    ensures
        read_bytes(*final(buf)) == Seq::<u8>::empty(),
{
    let _ = buf.split();
}

/// `WriteBuf::new` of xitca-io: a write buffer that holds nothing and waits
/// for no flush.
#[verifier::external_body]
fn write_buf_new() -> (buf: xitca_io::bytes::WriteBuf)
    ensures
        write_bytes(buf) == Seq::<u8>::empty(),
        !flush_wanted(buf),
{
    xitca_io::bytes::WriteBuf::new()
}

/// `WriteBuf::clear` of xitca-io: the buffer holds nothing afterwards and
/// waits for no flush.
#[verifier::external_body]
fn write_buf_clear(buf: &mut xitca_io::bytes::WriteBuf)
    ensures
        write_bytes(*final(buf)) == Seq::<u8>::empty(),
        !flush_wanted(*final(buf)),
{
    buf.clear()
}

/// `BufWrite::write_buf` of xitca-io's write buffer with a closure that
/// extends it by `data` and cannot fail: `data` stands behind what the
/// buffer held, and the buffer waits for no flush.
#[verifier::external_body]
fn write_buf_extend(buf: &mut xitca_io::bytes::WriteBuf, data: &[u8])
    ensures
        write_bytes(*final(buf)) == write_bytes(*old(buf)) + data@,
        !flush_wanted(*final(buf)),
{
    let _ = xitca_io::bytes::BufWrite::write_buf(
        buf,
        |b| {
            b.extend_from_slice(data);
            Ok::<(), core::convert::Infallible>(())
        },
    );
}

/// `BufInterest::want_write_io` of xitca-io's write buffer: whether it
/// holds bytes or waits for a flush.
#[verifier::external_body]
fn write_buf_wants_io(buf: &xitca_io::bytes::WriteBuf) -> (wanted: bool)
    ensures
        wanted == (write_bytes(*buf).len() > 0 || flush_wanted(*buf)),
{
    xitca_io::bytes::BufInterest::want_write_io(buf)
}

/// The port of an upstream whose URI names none.
pub const DEFAULT_PORT: u16 = 853;

/// How many submissions may wait to be taken by the engine before the
/// next one has to wait itself.
pub const SUBMISSION_BOUND: usize = 256;

/// The number of seconds to wait after a connection could not be made.
pub const RECONNECT_SECS: u64 = 1;

/// The port of an upstream: the one that its URI names, or 853.
pub fn upstream_port(port: Option<u16>) -> (r: u16)
    ensures
        r == match port {
            Some(p) => p,
            None => DEFAULT_PORT,
        },
{
    match port {
        Some(p) => p,
        None => DEFAULT_PORT,
    }
}

/// What the owner of the connection is to wait for on the stream.
#[derive(Clone, Copy, Debug, PartialEq, Eq, Structural)]
pub struct Interest {
    pub readable: bool,
    pub writable: bool,
}

/// Whether the engine still takes submissions, or only finishes what it
/// has taken.
#[derive(Clone, Copy, Debug, PartialEq, Eq, Structural)]
pub enum Phase {
    Serving,
    Draining,
}

/// What has become of a connection, or of the attempt to make one.
#[derive(Clone, Copy, Debug, PartialEq, Eq, Structural)]
pub enum Link {
    /// No connection could be made.
    ConnectFailed,
    /// The connection was lost, or closed by the peer, while it was served.
    Lost,
    /// The engine has finished all that it had taken, and no submission
    /// will come any more.
    Finished,
}

/// What the owner of the engine does next.
#[derive(Clone, Copy, Debug, PartialEq, Eq, Structural)]
pub enum Recovery {
    /// It waits for this many seconds and tries to connect again.
    RetryAfter(u64),
    /// It waits for the next submission, hands it to
    /// [`TlsContext::wait_for_reconnect`], and connects again where that
    /// says so.
    AwaitSubmission,
    /// It ends.
    Stop,
}

/// The state of the engine. `S` is what a reply is delivered to.
pub struct TlsContext<S> {
    /// The length of the message that is being waited for; `None` while
    /// its two bytes of length are waited for.
    pub len: Option<usize>,
    /// What has come from the stream and is not yet handed out.
    pub buf_read: xitca_io::bytes::PagedBytesMut<4096>,
    /// What is to go to the stream.
    pub buf_write: xitca_io::bytes::WriteBuf,
    /// The sinks of the requests that wait for a reply, oldest first.
    pub queue: VecDeque<S>,
}

/// What a [`TlsContext`] holds.
pub struct ContextView<S> {
    pub len: Option<usize>,
    pub read: Seq<u8>,
    pub write: Seq<u8>,
    pub flush: bool,
    pub queue: Seq<S>,
}

impl<S> View for TlsContext<S> {
    type V = ContextView<S>;

    open spec fn view(&self) -> ContextView<S> {
        ContextView {
            len: self.len,
            read: read_bytes(self.buf_read),
            write: write_bytes(self.buf_write),
            flush: flush_wanted(self.buf_write),
            queue: self.queue@,
        }
    }
}

/// A message as it goes over the stream: its length in two bytes, cut to 16
/// bits, and the message.
pub open spec fn frame(msg: Seq<u8>) -> Seq<u8> {
    be16_bytes(msg.len() as u16) + msg
}

/// What the decoder makes of the bytes it holds: the messages that are
/// complete, the length it waits for next and the bytes that are left.
pub struct Decoded {
    pub frames: Seq<Seq<u8>>,
    pub len: Option<usize>,
    pub rest: Seq<u8>,
}

/// `frames` put before those of `tail`.
pub open spec fn after(frames: Seq<Seq<u8>>, tail: Decoded) -> Decoded {
    Decoded { frames: frames + tail.frames, ..tail }
}

/// Decoding `read` while `len` is waited for. Two bytes are taken as a
/// length as soon as they are there; a message is taken as soon as all its
/// bytes are there.
#[verifier::opaque]
pub open spec fn decoded(len: Option<usize>, read: Seq<u8>) -> Decoded
    decreases read.len(), (if len is Some { 1int } else { 0int }),
{
    match len {
        Some(l) => if read.len() >= l {
            after(seq![read.take(l as int)], decoded(None, read.skip(l as int)))
        } else {
            Decoded { frames: Seq::empty(), len, rest: read }
        },
        None => if read.len() >= 2 {
            decoded(Some(be16(read[0], read[1]) as usize), read.skip(2))
        } else {
            Decoded { frames: Seq::empty(), len, rest: read }
        },
    }
}

/// How many of `frames` find a sink in a queue of `queue` sinks.
pub open spec fn served(frames: Seq<Seq<u8>>, queue: int) -> int {
    if frames.len() <= queue {
        frames.len() as int
    } else {
        queue
    }
}

/// An engine that holds nothing and waits for a length.
pub open spec fn fresh<S>() -> ContextView<S> {
    ContextView { len: None, read: Seq::empty(), write: Seq::empty(), flush: false, queue: Seq::empty() }
}

/// The engine after it has taken the submission of `msg` with `sink`.
pub open spec fn submitted<S>(ctx: ContextView<S>, msg: Seq<u8>, sink: S) -> ContextView<S> {
    ContextView { write: ctx.write + frame(msg), flush: false, queue: ctx.queue.push(sink), ..ctx }
}

/// The engine after `bytes` have come from the stream.
pub open spec fn received<S>(ctx: ContextView<S>, bytes: Seq<u8>) -> ContextView<S> {
    ContextView { read: ctx.read + bytes, ..ctx }
}

/// What the engine hands out: each complete message with the sink of the
/// oldest request that waits, as long as there are both.
pub open spec fn deliveries<S>(ctx: ContextView<S>) -> Seq<(S, Seq<u8>)> {
    let frames = decoded(ctx.len, ctx.read).frames;
    Seq::new(served(frames, ctx.queue.len() as int) as nat, |i: int| (ctx.queue[i], frames[i]))
}

/// The engine after it has handed out what was complete.
pub open spec fn handed_out<S>(ctx: ContextView<S>) -> ContextView<S> {
    let all = decoded(ctx.len, ctx.read);
    ContextView {
        len: all.len,
        read: all.rest,
        queue: ctx.queue.skip(served(all.frames, ctx.queue.len() as int)),
        ..ctx
    }
}

/// Each sink with the bytes of its message.
pub open spec fn pairs<S>(out: Seq<(S, Vec<u8>)>) -> Seq<(S, Seq<u8>)> {
    Seq::new(out.len(), |i: int| (out[i].0, out[i].1@))
}

/// The messages of `msgs` as they go over the stream, one behind the
/// other, from index `from` on.
pub open spec fn frames_wire(msgs: Seq<Seq<u8>>, from: int) -> Seq<u8>
    decreases msgs.len() - from,
{
    if from < 0 || from >= msgs.len() {
        Seq::empty()
    } else {
        frame(msgs[from]) + frames_wire(msgs, from + 1)
    }
}

impl<S> TlsContext<S> {
    /// An engine that holds nothing and waits for a length.
    pub fn new() -> (ctx: Self)
        ensures
            ctx@ == fresh::<S>(),
    {
        Self { len: None, buf_read: read_buf_new(), buf_write: write_buf_new(), queue: VecDeque::new() }
    }

    /// Forgets all that the engine holds, before a new connection is made:
    /// both buffers are emptied and the sinks of the requests that wait are
    /// dropped.
    pub fn reset(&mut self)
        ensures
            final(self)@ == fresh::<S>(),
    {
        self.len = None;
        read_buf_clear(&mut self.buf_read);
        write_buf_clear(&mut self.buf_write);
        self.queue.clear();
    }

    /// Takes the failure of a write to the stream. Such a failure is the
    /// loss of the connection: the engine is reset, so that no request goes
    /// on waiting for a reply that cannot come, and the result is handed to
    /// [`TlsContext::recover`].
    pub fn write_failed(&mut self) -> (link: Link)
        ensures
            link == Link::Lost,
            final(self)@ == fresh::<S>(),
    {
        self.reset();
        Link::Lost
    }

    /// Takes the failure of a read from the stream, or its end. It is the
    /// loss of the connection, as the failure of a write is.
    pub fn read_failed(&mut self) -> (link: Link)
        ensures
            link == Link::Lost,
            final(self)@ == fresh::<S>(),
    {
        self.reset();
        Link::Lost
    }

    /// Takes what has become of the connection. Unless the engine has
    /// finished, it is reset: both buffers are emptied and the requests
    /// that wait are dropped. After a failed attempt to connect the next
    /// one follows a second later; after a lost connection the next one
    /// follows as soon as there is a submission again.
    pub fn recover(&mut self, link: Link) -> (next: Recovery)
        ensures
            next == match link {
                Link::ConnectFailed => Recovery::RetryAfter(RECONNECT_SECS),
                Link::Lost => Recovery::AwaitSubmission,
                Link::Finished => Recovery::Stop,
            },
            final(self)@ == if link == Link::Finished {
                old(self)@
            } else {
                fresh::<S>()
            },
    {
        match link {
            Link::ConnectFailed => {
                self.reset();
                Recovery::RetryAfter(RECONNECT_SECS)
            },
            Link::Lost => {
                self.reset();
                Recovery::AwaitSubmission
            },
            Link::Finished => Recovery::Stop,
        }
    }

    /// Takes what has come from the channel of submissions while the
    /// engine serves: a submission is taken and the engine goes on serving;
    /// with the channel closed it takes no more and drains.
    pub fn submission(&mut self, next: Option<(Box<[u8]>, S)>) -> (phase: Phase)
        ensures
            phase == if next is Some {
                Phase::Serving
            } else {
                Phase::Draining
            },
            final(self)@ == match next {
                Some(msg) => submitted(old(self)@, msg.0@, msg.1),
                None => old(self)@,
            },
    {
        match next {
            Some(msg) => {
                self.encode(msg);
                Phase::Serving
            },
            None => Phase::Draining,
        }
    }

    /// Goes on after the connection was lost. The engine is reset: what it
    /// held is forgotten and the requests that waited are dropped. Then the
    /// next submission is taken as by a new engine, or nothing is where none
    /// will come any more.
    pub fn wait_for_reconnect(&mut self, next: Option<(Box<[u8]>, S)>) -> (go_on: bool)
        ensures
            go_on == next is Some,
            final(self)@ == match next {
                Some(msg) => submitted(fresh::<S>(), msg.0@, msg.1),
                None => fresh::<S>(),
            },
    {
        self.reset();
        match next {
            Some(msg) => {
                self.encode(msg);
                true
            },
            None => false,
        }
    }

    /// Takes a submission: the message goes behind what is to be written,
    /// with its length before it, and its sink goes to the end of the queue.
    pub fn encode(&mut self, msg: (Box<[u8]>, S))
        ensures
            final(self)@ == submitted(old(self)@, msg.0@, msg.1),
    {
        let (buf, tx) = msg;
        let mut body = buf.into_vec();
        let len = prefix(body.len());
        let mut framed: Vec<u8> = Vec::new();
        framed.push((len / 256) as u8);
        framed.push((len % 256) as u8);
        framed.append(&mut body);
        assert(framed@ =~= frame(msg.0@));
        write_buf_extend(&mut self.buf_write, framed.as_slice());
        self.queue.push_back(tx);
    }

    /// Hands out the messages that are complete in the read buffer, each
    /// with the sink of the oldest request that waits. A message for which
    /// no request waits is dropped.
    pub fn decode(&mut self) -> (out: Vec<(S, Vec<u8>)>)
        ensures
            final(self)@ == handed_out(old(self)@),
            pairs(out@) == deliveries(old(self)@),
    {
        let ghost start = self@;
        let ghost all = decoded(start.len, start.read);
        let ghost frames: Seq<Seq<u8>> = Seq::empty();
        let mut out: Vec<(S, Vec<u8>)> = Vec::new();
        proof {
            assert(frames + all.frames =~= all.frames);
            assert(start.queue.skip(0) =~= start.queue);
        }
        loop
            invariant
                start == old(self)@,
                all == decoded(start.len, start.read),
                self@.write == start.write,
                self@.flush == start.flush,
                all == after(frames, decoded(self@.len, self@.read)),
                out@.len() == served(frames, start.queue.len() as int),
                self@.queue == start.queue.skip(out@.len() as int),
                forall|i: int|
                    0 <= i < out@.len() ==> (#[trigger] out@[i]).0 == start.queue[i] && out@[i].1@
                        == frames[i],
            decreases self@.read.len(), (if self@.len is Some { 1int } else { 0int }),
        {
            proof {
                reveal(decoded);
            }
            let have = read_buf_chunk(&self.buf_read).len();
            match self.len {
                Some(l) => {
                    if have < l {
                        proof {
                            assert(frames + Seq::<Seq<u8>>::empty() =~= frames);
                            assert(pairs(out@) =~= deliveries(start));
                        }
                        return out;
                    }
                    let ghost tail = decoded(None, self@.read.skip(l as int));
                    let ghost queue = self@.queue;
                    let body = read_buf_split_to(&mut self.buf_read, l);
                    proof {
                        assert(frames + (seq![body@] + tail.frames) =~= frames.push(body@)
                            + tail.frames);
                    }
                    match self.queue.pop_front() {
                        Some(sink) => {
                            out.push((sink, body));
                            proof {
                                assert(self@.queue =~= start.queue.skip(out@.len() as int));
                            }
                        },
                        None => {
                            proof {
                                assert(start.queue.skip(out@.len() as int).len() == 0);
                            }
                        },
                    }
                    proof {
                        frames = frames.push(body@);
                    }
                    self.len = None;
                },
                None => {
                    if have < 2 {
                        proof {
                            assert(frames + Seq::<Seq<u8>>::empty() =~= frames);
                            assert(pairs(out@) =~= deliveries(start));
                        }
                        return out;
                    }
                    let chunk = read_buf_chunk(&self.buf_read);
                    let hi = chunk[0];
                    let lo = chunk[1];
                    self.len = Some(((hi as u16) * 256 + (lo as u16)) as usize);
                    read_buf_advance(&mut self.buf_read, 2);
                },
            }
        }
    }

    /// Whether there is anything to write to the stream.
    pub fn want_write(&self) -> (wanted: bool)
        ensures
            wanted == (self@.write.len() > 0 || self@.flush),
    {
        write_buf_wants_io(&self.buf_write)
    }

    /// What the stream is to be watched for. While it serves, the engine
    /// always reads, and writes when there is something to write. While it
    /// drains, it reads as long as a request waits for its reply; with
    /// nothing to read and nothing to write it is done, and the result is
    /// `None`.
    pub fn interest(&self, phase: Phase) -> (r: Option<Interest>)
        ensures
            r == wanted_interest(self@, phase),
    {
        let writable = self.want_write();
        match phase {
            Phase::Serving => Some(Interest { readable: true, writable }),
            Phase::Draining => {
                let readable = self.queue.len() > 0;
                if readable || writable {
                    Some(Interest { readable, writable })
                } else {
                    None
                }
            },
        }
    }
}

/// What an engine in state `ctx` and phase `phase` watches the stream for.
pub open spec fn wanted_interest<S>(ctx: ContextView<S>, phase: Phase) -> Option<Interest> {
    let writable = ctx.write.len() > 0 || ctx.flush;
    match phase {
        Phase::Serving => Some(Interest { readable: true, writable }),
        Phase::Draining => {
            let readable = ctx.queue.len() > 0;
            if readable || writable {
                Some(Interest { readable, writable })
            } else {
                None
            }
        },
    }
}

/// Messages that are decoded from their own frames come out as they went
/// in: the frames of `msgs` from `from` on, with nothing behind them, are
/// decoded to these messages, and the decoder waits for a length again.
pub proof fn lemma_decoded_frames(msgs: Seq<Seq<u8>>, from: int)
    requires
        0 <= from <= msgs.len(),
        forall|i: int| 0 <= i < msgs.len() ==> (#[trigger] msgs[i]).len() <= 0xFFFF,
    ensures
        decoded(None, frames_wire(msgs, from)) == (Decoded {
            frames: msgs.skip(from),
            len: None,
            rest: Seq::empty(),
        }),
    decreases msgs.len() - from,
{
    reveal(decoded);
    if from >= msgs.len() {
        assert(msgs.skip(from) =~= Seq::<Seq<u8>>::empty());
    } else {
        let msg = msgs[from];
        let tail = frames_wire(msgs, from + 1);
        let wire = frames_wire(msgs, from);
        let n = msg.len() as u16;
        assert(wire[0] == be16_bytes(n)[0]);
        assert(wire[1] == be16_bytes(n)[1]);
        assert(be16(wire[0], wire[1]) == n);
        assert(wire.skip(2) =~= msg + tail);
        assert((msg + tail).take(msg.len() as int) =~= msg);
        assert((msg + tail).skip(msg.len() as int) =~= tail);
        lemma_decoded_frames(msgs, from + 1);
        assert(seq![msg] + msgs.skip(from + 1) =~= msgs.skip(from));
        assert(n as usize == msg.len());
        assert(wire.len() >= 2);
        assert(decoded(None, wire) == decoded(Some(n as usize), msg + tail));
        assert(decoded(Some(n as usize), msg + tail) == after(
            seq![msg],
            decoded(None, tail),
        ));
    } 
}

/// Bytes that come in two parts are decoded as if they had come at once:
/// the messages of the first part, then what the decoder makes of the
/// second part where the first has left it.
pub proof fn lemma_decoded_in_parts(len: Option<usize>, a: Seq<u8>, b: Seq<u8>)
    ensures
        decoded(len, a + b) == after(
            decoded(len, a).frames,
            decoded(decoded(len, a).len, decoded(len, a).rest + b),
        ),
    decreases a.len(), (if len is Some { 1int } else { 0int }),
{
    reveal(decoded);
    let empty = Seq::<Seq<u8>>::empty();
    match len {
        Some(l) => {
            if a.len() >= l {
                assert((a + b).take(l as int) =~= a.take(l as int));
                assert((a + b).skip(l as int) =~= a.skip(l as int) + b);
                lemma_decoded_in_parts(None, a.skip(l as int), b);
                let tail = decoded(None, a.skip(l as int));
                let last = decoded(tail.len, tail.rest + b);
                assert(seq![a.take(l as int)] + (tail.frames + last.frames) =~= (seq![
                    a.take(l as int),
                ] + tail.frames) + last.frames);
            } else {
                assert(empty + decoded(len, a + b).frames =~= decoded(len, a + b).frames);
            }
        },
        None => {
            if a.len() >= 2 {
                assert((a + b).skip(2) =~= a.skip(2) + b);
                lemma_decoded_in_parts(Some(be16(a[0], a[1]) as usize), a.skip(2), b);
            } else {
                assert(empty + decoded(len, a + b).frames =~= decoded(len, a + b).frames);
            }
        },
    }
}

/// Replies come to their requests in the order of submission: where an
/// engine that holds no bytes waits for as many replies as `replies` holds,
/// and their frames come from the stream one behind the other, each sink is
/// handed the reply that stands where its request stood, and no request
/// waits any longer.
pub proof fn lemma_replies_in_order<S>(ctx: ContextView<S>, replies: Seq<Seq<u8>>)
    requires
        ctx.len is None,
        ctx.read.len() == 0,
        replies.len() == ctx.queue.len(),
        forall|i: int| 0 <= i < replies.len() ==> (#[trigger] replies[i]).len() <= 0xFFFF,
    ensures
        deliveries(received(ctx, frames_wire(replies, 0))) == Seq::new(
            replies.len(),
            |i: int| (ctx.queue[i], replies[i]),
        ),
        handed_out(received(ctx, frames_wire(replies, 0))) == (ContextView::<S> {
            queue: Seq::empty(),
            ..ctx
        }),
{
    lemma_decoded_frames(replies, 0);
    let got = received(ctx, frames_wire(replies, 0));
    assert(got.read =~= frames_wire(replies, 0));
    assert(replies.skip(0) =~= replies);
    assert(deliveries(got) =~= Seq::new(replies.len(), |i: int| (ctx.queue[i], replies[i])));
    assert(ctx.queue.skip(ctx.queue.len() as int) =~= Seq::<S>::empty());
    assert(ctx.read =~= Seq::<u8>::empty());
}

/// A submission that an engine takes after it was reset is served as by a
/// new engine: when the frame of its reply has come from the stream, that
/// reply is handed to its sink, and nothing is left over.
pub proof fn lemma_served_after_reset<S>(msg: Seq<u8>, sink: S, reply: Seq<u8>)
    requires
        reply.len() <= 0xFFFF,
    ensures
        deliveries(received(submitted(fresh::<S>(), msg, sink), frame(reply))) == seq![
            (sink, reply),
        ],
        handed_out(received(submitted(fresh::<S>(), msg, sink), frame(reply))) == (
        ContextView::<S> { write: frame(msg), ..fresh::<S>() }),
{
    let ctx = submitted(fresh::<S>(), msg, sink);
    let replies = seq![reply];
    lemma_replies_in_order(ctx, replies);
    assert(frames_wire(replies, 0) =~= frame(reply)) by {
        assert(frames_wire(replies, 1) =~= Seq::<u8>::empty());
    }
    assert(Seq::new(replies.len(), |i: int| (ctx.queue[i], replies[i])) =~= seq![(sink, reply)]);
    assert(ctx.write =~= frame(msg));
}

/// It makes no difference in how many pieces the bytes come from the
/// stream: handing out after `a` and again after `b` delivers, one behind
/// the other, what handing out once after both delivers, and leaves the
/// engine in the same state.
pub proof fn lemma_arrival_in_parts<S>(ctx: ContextView<S>, a: Seq<u8>, b: Seq<u8>)
    ensures
        deliveries(received(ctx, a + b)) == deliveries(received(ctx, a)) + deliveries(
            received(handed_out(received(ctx, a)), b),
        ),
        handed_out(received(ctx, a + b)) == handed_out(
            received(handed_out(received(ctx, a)), b),
        ),
{
    let first = received(ctx, a);
    let mid = handed_out(first);
    let second = received(mid, b);
    let both = received(ctx, a + b);
    assert(both.read =~= first.read + b);
    lemma_decoded_in_parts(ctx.len, first.read, b);
    let d1 = decoded(ctx.len, first.read);
    let d2 = decoded(d1.len, d1.rest + b);
    let q = ctx.queue.len() as int;
    let k1 = served(d1.frames, q);
    let k2 = served(d2.frames, q - k1);
    assert(served(d1.frames + d2.frames, q) == k1 + k2);
    assert(mid.queue.len() == q - k1);
    assert(deliveries(both) =~= deliveries(first) + deliveries(second));
    assert(ctx.queue.skip(k1).skip(k2) =~= ctx.queue.skip(k1 + k2));
}

/// The length of a message as its two bytes of length hold it: cut to 16
/// bits.
fn prefix(len: usize) -> (n: u16)
    ensures
        n == len as u16,
{
    #[verifier::truncate]
    (len as u16)
}

} // verus!
