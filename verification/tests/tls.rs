use dns_proxy::tls::{
    upstream_port, Interest, Link, Phase, Recovery, TlsContext, DEFAULT_PORT, SUBMISSION_BOUND,
};
use std::sync::mpsc::{channel, Receiver, Sender, TryRecvError};
use xitca_io::bytes::{BufMut, BufWrite};

fn boxed(bytes: &[u8]) -> Box<[u8]> {
    bytes.to_vec().into_boxed_slice()
}

fn feed<S>(ctx: &mut TlsContext<S>, bytes: &[u8]) {
    ctx.buf_read.put_slice(bytes);
}

fn frame(msg: &[u8]) -> Vec<u8> {
    let mut out = vec![(msg.len() >> 8) as u8, msg.len() as u8];
    out.extend_from_slice(msg);
    out
}

#[test]
fn encode_puts_the_length_before_the_message() {
    let mut ctx: TlsContext<u32> = TlsContext::new();
    assert!(!ctx.want_write());
    ctx.encode((boxed(&[0xAA, 0xBB, 0xCC]), 1));
    ctx.encode((boxed(&[]), 2));
    ctx.encode((boxed(&[7u8; 300]), 3));
    let mut expected = vec![0, 3, 0xAA, 0xBB, 0xCC, 0, 0, 1, 44];
    expected.extend_from_slice(&[7u8; 300]);
    assert_eq!(ctx.buf_write.buf(), &expected[..]);
    assert_eq!(ctx.queue.iter().copied().collect::<Vec<u32>>(), vec![1, 2, 3]);
    assert!(ctx.want_write());
}

#[test]
fn replies_go_to_the_sinks_in_submission_order() {
    let mut ctx: TlsContext<&str> = TlsContext::new();
    ctx.encode((boxed(b"q1"), "first"));
    ctx.encode((boxed(b"q2"), "second"));
    ctx.encode((boxed(b"q3"), "third"));
    let mut wire = frame(b"reply one");
    wire.extend(frame(b""));
    wire.extend(frame(b"reply three"));
    feed(&mut ctx, &wire);
    let out = ctx.decode();
    assert_eq!(
        out,
        vec![
            ("first", b"reply one".to_vec()),
            ("second", Vec::new()),
            ("third", b"reply three".to_vec()),
        ]
    );
    assert!(ctx.queue.is_empty());
    assert_eq!(ctx.len, None);
    assert!(ctx.buf_read.is_empty());
}

#[test]
fn an_echo_of_what_was_written_brings_every_request_back_to_its_sink() {
    let mut ctx: TlsContext<usize> = TlsContext::new();
    let requests: Vec<Vec<u8>> = (0..20usize).map(|i| vec![i as u8; i * 13]).collect();
    for (i, request) in requests.iter().enumerate() {
        ctx.encode((boxed(request), i));
    }
    let echoed = ctx.buf_write.buf().to_vec();
    feed(&mut ctx, &echoed);
    let out = ctx.decode();
    assert_eq!(out.len(), 20);
    for (i, (sink, bytes)) in out.into_iter().enumerate() {
        assert_eq!(sink, i);
        assert_eq!(bytes, requests[i]);
    }
}

#[test]
fn bytes_may_come_in_any_pieces() {
    let mut wire = frame(b"abc");
    wire.extend(frame(b"defgh"));
    for cut in 0..=wire.len() {
        let mut ctx: TlsContext<u8> = TlsContext::new();
        ctx.encode((boxed(b"x"), 1));
        ctx.encode((boxed(b"y"), 2));
        feed(&mut ctx, &wire[..cut]);
        let mut out = ctx.decode();
        feed(&mut ctx, &wire[cut..]);
        out.extend(ctx.decode());
        assert_eq!(out, vec![(1, b"abc".to_vec()), (2, b"defgh".to_vec())]);
    }
}

#[test]
fn decoder_waits_for_the_bytes_that_are_missing() {
    let mut ctx: TlsContext<u8> = TlsContext::new();
    ctx.encode((boxed(b"x"), 1));
    feed(&mut ctx, &[0]);
    assert!(ctx.decode().is_empty());
    assert_eq!(ctx.len, None);
    feed(&mut ctx, &[2]);
    assert!(ctx.decode().is_empty());
    assert_eq!(ctx.len, Some(2));
    assert!(ctx.buf_read.is_empty());
    feed(&mut ctx, &[0xAB]);
    assert!(ctx.decode().is_empty());
    assert_eq!(ctx.len, Some(2));
    feed(&mut ctx, &[0xCD, 0, 1]);
    assert_eq!(ctx.decode(), vec![(1, vec![0xAB, 0xCD])]);
    assert_eq!(ctx.len, Some(1));
}

#[test]
fn a_message_that_no_request_waits_for_is_dropped() {
    let mut ctx: TlsContext<u8> = TlsContext::new();
    ctx.encode((boxed(b"x"), 1));
    let mut wire = frame(b"one");
    wire.extend(frame(b"two"));
    feed(&mut ctx, &wire);
    assert_eq!(ctx.decode(), vec![(1, b"one".to_vec())]);
    assert!(ctx.buf_read.is_empty());
    assert_eq!(ctx.len, None);
}

#[test]
fn length_of_a_long_message_is_cut_to_16_bits() {
    let mut ctx: TlsContext<u8> = TlsContext::new();
    ctx.encode((boxed(&vec![1u8; 65536 + 5]), 1));
    assert_eq!(&ctx.buf_write.buf()[..2], &[0, 5]);
    assert_eq!(ctx.buf_write.len(), 65536 + 7);
}

#[test]
fn interest_while_serving_and_while_draining() {
    let mut ctx: TlsContext<u8> = TlsContext::new();
    assert_eq!(
        ctx.interest(Phase::Serving),
        Some(Interest { readable: true, writable: false })
    );
    assert_eq!(ctx.interest(Phase::Draining), None);
    ctx.encode((boxed(b"x"), 1));
    assert_eq!(
        ctx.interest(Phase::Serving),
        Some(Interest { readable: true, writable: true })
    );
    assert_eq!(
        ctx.interest(Phase::Draining),
        Some(Interest { readable: true, writable: true })
    );
    feed(&mut ctx, &frame(b"r"));
    assert_eq!(ctx.decode().len(), 1);
    assert_eq!(
        ctx.interest(Phase::Draining),
        Some(Interest { readable: false, writable: true })
    );
    ctx.buf_write.clear();
    assert_eq!(ctx.interest(Phase::Draining), None);
    ctx.encode((boxed(b"y"), 2));
    ctx.buf_write.clear();
    assert_eq!(
        ctx.interest(Phase::Draining),
        Some(Interest { readable: true, writable: false })
    );
}

#[test]
fn a_failed_write_or_read_is_a_lost_connection() {
    let mut ctx: TlsContext<Sender<Vec<u8>>> = TlsContext::new();
    let (tx1, rx1) = sink();
    ctx.encode((boxed(b"one"), tx1));
    feed(&mut ctx, &[0, 4, 1]);
    assert!(ctx.decode().is_empty());
    assert_eq!(ctx.write_failed(), Link::Lost);
    assert_eq!(rx1.try_recv(), Err(TryRecvError::Disconnected));
    assert!(ctx.queue.is_empty());
    assert!(ctx.buf_write.is_empty());
    assert!(ctx.buf_read.is_empty());
    assert_eq!(ctx.len, None);
    assert_eq!(ctx.recover(Link::Lost), Recovery::AwaitSubmission);

    let (tx2, rx2) = sink();
    ctx.encode((boxed(b"two"), tx2));
    assert_eq!(ctx.read_failed(), Link::Lost);
    assert_eq!(rx2.try_recv(), Err(TryRecvError::Disconnected));
    assert!(ctx.queue.is_empty());
    assert!(ctx.buf_write.is_empty());
    assert_eq!(ctx.interest(Phase::Draining), None);
}

#[test]
fn wait_for_reconnect_forgets_what_the_engine_held() {
    let mut ctx: TlsContext<Sender<Vec<u8>>> = TlsContext::new();
    let (tx1, rx1) = sink();
    let (tx2, rx2) = sink();
    ctx.encode((boxed(b"one"), tx1));
    feed(&mut ctx, &[0, 9, 1, 2]);
    assert!(ctx.decode().is_empty());
    assert_eq!(ctx.len, Some(9));
    assert!(ctx.wait_for_reconnect(Some((boxed(b"two"), tx2))));
    assert_eq!(rx1.try_recv(), Err(TryRecvError::Disconnected));
    assert_eq!(ctx.buf_write.buf(), &frame(b"two")[..]);
    assert_eq!(ctx.queue.len(), 1);
    assert_eq!(ctx.len, None);
    assert!(ctx.buf_read.is_empty());
    feed(&mut ctx, &frame(b"reply"));
    for (tx, bytes) in ctx.decode() {
        tx.send(bytes).unwrap();
    }
    assert_eq!(rx2.try_recv(), Ok(b"reply".to_vec()));

    let (tx3, rx3) = sink();
    ctx.encode((boxed(b"three"), tx3));
    assert!(!ctx.wait_for_reconnect(None));
    assert_eq!(rx3.try_recv(), Err(TryRecvError::Disconnected));
    assert!(ctx.queue.is_empty());
    assert!(ctx.buf_write.is_empty());
}

fn sink() -> (Sender<Vec<u8>>, Receiver<Vec<u8>>) {
    channel()
}

#[test]
fn reset_drops_the_sinks_and_a_later_submission_is_served() {
    let mut ctx: TlsContext<Sender<Vec<u8>>> = TlsContext::new();
    let (tx1, rx1) = sink();
    let (tx2, rx2) = sink();
    ctx.encode((boxed(b"one"), tx1));
    ctx.encode((boxed(b"two"), tx2));
    feed(&mut ctx, &[0, 9, 1, 2]);
    assert!(ctx.decode().is_empty());
    assert_eq!(rx1.try_recv(), Err(TryRecvError::Empty));

    // the connection is lost
    ctx.reset();
    assert_eq!(rx1.try_recv(), Err(TryRecvError::Disconnected));
    assert_eq!(rx2.try_recv(), Err(TryRecvError::Disconnected));
    assert_eq!(ctx.len, None);
    assert!(ctx.buf_read.is_empty());
    assert!(ctx.buf_write.is_empty());
    assert!(ctx.queue.is_empty());
    assert!(!ctx.want_write());

    // the next submission is taken as by a new engine
    let (tx3, rx3) = sink();
    assert!(ctx.wait_for_reconnect(Some((boxed(b"three"), tx3))));
    assert_eq!(ctx.buf_write.buf(), &frame(b"three")[..]);
    feed(&mut ctx, &frame(b"answer"));
    for (tx, bytes) in ctx.decode() {
        tx.send(bytes).unwrap();
    }
    assert_eq!(rx3.try_recv(), Ok(b"answer".to_vec()));
    assert!(!ctx.wait_for_reconnect(None));
}

#[test]
fn port_of_an_upstream() {
    assert_eq!(DEFAULT_PORT, 853);
    assert_eq!(upstream_port(None), 853);
    assert_eq!(upstream_port(Some(8853)), 8853);
}

#[test]
fn submissions_while_serving() {
    let mut ctx: TlsContext<u8> = TlsContext::new();
    assert_eq!(ctx.submission(Some((boxed(b"ab"), 1))), Phase::Serving);
    assert_eq!(ctx.buf_write.buf(), &[0, 2, b'a', b'b']);
    assert_eq!(ctx.queue.len(), 1);
    assert_eq!(ctx.submission(None), Phase::Draining);
    assert_eq!(ctx.buf_write.buf(), &[0, 2, b'a', b'b']);
    assert_eq!(ctx.queue.len(), 1);
    assert_eq!(SUBMISSION_BOUND, 256);
}

#[test]
fn what_follows_the_end_of_a_connection() {
    let mut ctx: TlsContext<u8> = TlsContext::new();
    ctx.encode((boxed(b"ab"), 1));
    assert_eq!(ctx.recover(Link::Finished), Recovery::Stop);
    assert_eq!(ctx.queue.len(), 1);
    assert_eq!(ctx.recover(Link::Lost), Recovery::AwaitSubmission);
    assert!(ctx.queue.is_empty());
    assert!(ctx.buf_write.is_empty());
    ctx.encode((boxed(b"cd"), 2));
    feed(&mut ctx, &[0]);
    assert_eq!(ctx.recover(Link::ConnectFailed), Recovery::RetryAfter(1));
    assert!(ctx.queue.is_empty());
    assert!(ctx.buf_write.is_empty());
    assert!(ctx.buf_read.is_empty());
}
