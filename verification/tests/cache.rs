use dns_proxy::dispatch::{
    after_try, answered, connection_error, forward, EitherBuf, RecvError, Round,
};
use dns_proxy::cache::{Cache, CacheEntry, NANOS_PER_SEC};
use dns_proxy::dns::{Answer, Buf, Header, Packet, Query, Question, Record};

const SEC: u64 = NANOS_PER_SEC;

fn query(id: u16, name: &str) -> Vec<u8> {
    let mut storage = [0u8; 512];
    let mut buf = Buf::new(&mut storage);
    let mut packet = Packet::new();
    packet.header.id = id;
    packet.header.recursion_desired = true;
    packet.questions.push(Question::new(String::from(name), Query::A));
    packet.write(&mut buf).unwrap();
    buf.as_slice().to_vec()
}

fn response(id: u16, name: &str, ttls: &[u32]) -> Vec<u8> {
    let mut storage = [0u8; 512];
    let mut buf = Buf::new(&mut storage);
    let mut packet = Packet::new();
    packet.header.id = id;
    packet.header.recursion_desired = true;
    packet.header.response = true;
    packet.header.recursion_available = true;
    packet.questions.push(Question::new(String::from(name), Query::A));
    for (i, ttl) in ttls.iter().enumerate() {
        packet.answers.push(Answer::new(
            String::from(name),
            *ttl,
            Record::A { addr: [93, 184, 216, 34 + i as u8] },
        ));
    }
    packet.write(&mut buf).unwrap();
    buf.as_slice().to_vec()
}

fn decode(bytes: &[u8]) -> Packet {
    let mut copy = bytes.to_vec();
    let mut packet = Packet::new();
    packet.read(&mut Buf::new(&mut copy)).unwrap();
    packet
}

#[test]
fn miss_on_an_empty_cache() {
    let cache = Cache::new();
    let mut request = query(1, "example.com");
    let before = request.clone();
    assert_eq!(cache.get(&mut request, 0), None);
    assert_eq!(request, before);
}

#[test]
fn set_then_get_gives_the_answers_with_the_id_of_the_query() {
    let mut cache = Cache::new();
    let mut upstream = response(0x1111, "example.com", &[60, 120]);
    cache.set(&mut upstream, 5 * SEC);
    let mut request = query(0x2222, "example.com");
    let hit = cache.get(&mut request, 6 * SEC).unwrap();
    let packet = decode(&hit);
    assert_eq!(packet.header.id, 0x2222);
    assert!(packet.header.response);
    assert!(packet.header.recursion_available);
    assert!(packet.header.recursion_desired);
    assert_eq!(packet.header.answers, 2);
    assert_eq!(packet.answers, decode(&upstream).answers);
    let mut expected = upstream.clone();
    expected[0] = 0x22;
    expected[1] = 0x22;
    assert_eq!(hit, expected);
}

#[test]
fn response_flags_are_set_on_a_hit() {
    let mut cache = Cache::new();
    let mut upstream = response(1, "example.com", &[60]);
    cache.set(&mut upstream, 0);
    let mut storage = [0u8; 512];
    let mut buf = Buf::new(&mut storage);
    let mut packet = Packet::new();
    packet.header = Header::new();
    packet.header.id = 9;
    packet.questions.push(Question::new(String::from("example.com"), Query::A));
    packet.write(&mut buf).unwrap();
    let mut request = buf.as_slice().to_vec();
    let hit = cache.get(&mut request, 0).unwrap();
    assert_eq!(hit[2] & 0x80, 0x80);
    assert_eq!(hit[3] & 0x80, 0x80);
    assert_eq!(&hit[4..8], &[0, 1, 0, 1]);
}

#[test]
fn entry_expires_on_its_earliest_ttl() {
    let mut cache = Cache::new();
    let mut upstream = response(1, "example.com", &[60, 2]);
    cache.set(&mut upstream, 10 * SEC);
    let mut request = query(2, "example.com");
    assert!(cache.get(&mut request, 10 * SEC).is_some());
    assert!(cache.get(&mut request, 12 * SEC - 1).is_some());
    assert_eq!(cache.get(&mut request, 12 * SEC), None);
    assert_eq!(cache.get(&mut request, 1000 * SEC), None);
    // a clock that is behind the making of the entry sees an age of zero
    assert!(cache.get(&mut request, 0).is_some());
    // the next set brings the entry back
    cache.set(&mut upstream, 1000 * SEC);
    assert!(cache.get(&mut request, 1000 * SEC).is_some());
}

#[test]
fn ttl_of_zero_is_expired_at_once_and_no_answers_never_expire() {
    let mut cache = Cache::new();
    let mut zero = response(1, "zero.example", &[0]);
    cache.set(&mut zero, 0);
    assert_eq!(cache.get(&mut query(1, "zero.example"), 0), None);
    let mut none = response(1, "none.example", &[]);
    cache.set(&mut none, 0);
    let hit = cache.get(&mut query(1, "none.example"), u64::MAX).unwrap();
    assert_eq!(decode(&hit).header.answers, 0);
}

#[test]
fn set_replaces_what_was_kept() {
    let mut cache = Cache::new();
    cache.set(&mut response(1, "example.com", &[60]), 0);
    cache.set(&mut response(1, "other.example", &[60]), 0);
    cache.set(&mut response(1, "example.com", &[30, 30, 30]), SEC);
    let hit = cache.get(&mut query(1, "example.com"), SEC).unwrap();
    assert_eq!(decode(&hit).answers.len(), 3);
    let hit = cache.get(&mut query(1, "other.example"), SEC).unwrap();
    assert_eq!(decode(&hit).answers.len(), 1);
}

#[test]
fn keys_are_whole_question_vectors() {
    let mut cache = Cache::new();
    cache.set(&mut response(1, "example.com", &[60]), 0);
    assert_eq!(cache.get(&mut query(1, "example.org"), 0), None);
    let mut storage = [0u8; 512];
    let mut buf = Buf::new(&mut storage);
    let mut packet = Packet::new();
    packet.questions.push(Question::new(String::from("example.com"), Query::AAAA));
    packet.write(&mut buf).unwrap();
    assert_eq!(cache.get(&mut buf.as_slice().to_vec(), 0), None);
    // the name is compared as it is read: in lower case
    assert!(cache.get(&mut query(1, "EXAMPLE.com"), 0).is_some());
}

#[test]
fn what_cannot_be_read_is_neither_kept_nor_answered() {
    let mut cache = Cache::new();
    cache.set(&mut vec![1u8, 2, 3], 0);
    assert_eq!(cache.get(&mut vec![1u8, 2, 3], 0), None);
    let mut truncated = response(1, "example.com", &[60]);
    truncated.pop();
    cache.set(&mut truncated, 0);
    assert_eq!(cache.get(&mut query(1, "example.com"), 0), None);
}

#[test]
fn response_that_does_not_fit_is_not_given() {
    let mut cache = Cache::new();
    let name = "a-rather-long-name.of-an-example.example.com";
    let mut bytes = response(1, name, &[]);
    // answers whose names are pointers fit where their full names do not
    bytes[7] = 25;
    for _ in 0..25 {
        bytes.extend_from_slice(&[0xC0, 12, 0, 1, 0, 1, 0, 0, 0, 60, 0, 4, 1, 2, 3, 4]);
    }
    assert!(bytes.len() <= 512);
    assert_eq!(decode(&bytes).answers.len(), 25);
    cache.set(&mut bytes, 0);
    assert_eq!(cache.get(&mut query(1, name), 0), None);
}

#[test]
fn entry_age_counts_whole_seconds() {
    let entry = CacheEntry::new(
        vec![Answer::new(String::from("a"), 1, Record::A { addr: [1, 2, 3, 4] })],
        SEC / 2,
    );
    assert!(!entry.is_expired(0));
    assert!(!entry.is_expired(SEC / 2 + SEC - 1));
    assert!(entry.is_expired(SEC / 2 + SEC));
    assert_eq!(entry.answers().len(), 1);
}

#[test]
fn recv_errors_that_the_listener_survives() {
    assert!(connection_error(RecvError::ConnectionRefused));
    assert!(connection_error(RecvError::ConnectionAborted));
    assert!(connection_error(RecvError::ConnectionReset));
    assert!(!connection_error(RecvError::Other));
}

/// An upstream that answers every A query with one address and counts how
/// often it was asked.
struct Upstream {
    asked: usize,
    ttl: u32,
}

impl Upstream {
    fn proxy(&mut self, request: &[u8]) -> Vec<u8> {
        self.asked += 1;
        let query = decode(request);
        let mut storage = [0u8; 512];
        let mut buf = Buf::new(&mut storage);
        let mut packet = Packet::new();
        packet.header = query.header;
        packet.header.response = true;
        packet.header.recursion_available = true;
        let name = query.questions[0].name.clone();
        packet.questions = query.questions;
        packet.answers.push(Answer::new(name, self.ttl, Record::A { addr: [93, 184, 216, 34] }));
        packet.write(&mut buf).unwrap();
        buf.as_slice().to_vec()
    }
}

fn serve(cache: &mut Cache, upstream: &mut Upstream, datagram: &mut [u8], now: u64) -> Vec<u8> {
    match forward(cache, datagram, now) {
        EitherBuf::Cache(hit) => hit,
        EitherBuf::Req(request) => answered(cache, upstream.proxy(&request), now),
    }
}

#[test]
fn a_record_round_trip_through_the_dispatcher() {
    let mut cache = Cache::new();
    let mut upstream = Upstream { asked: 0, ttl: 60 };
    let reply = serve(&mut cache, &mut upstream, &mut query(1, "example.com"), 0);
    let packet = decode(&reply);
    assert!(packet.header.response);
    assert_eq!(
        packet.answers,
        vec![Answer::new(String::from("example.com"), 60, Record::A { addr: [93, 184, 216, 34] })]
    );
}

#[test]
fn cache_hit_after_one_miss() {
    let mut cache = Cache::new();
    let mut upstream = Upstream { asked: 0, ttl: 60 };
    let first = serve(&mut cache, &mut upstream, &mut query(0x0101, "example.com"), 0);
    let second = serve(&mut cache, &mut upstream, &mut query(0x0202, "example.com"), SEC);
    assert_eq!(upstream.asked, 1);
    assert_eq!(&first[..2], &[1, 1]);
    assert_eq!(&second[..2], &[2, 2]);
    assert_eq!(&first[2..], &second[2..]);
}

#[test]
fn upstream_is_asked_again_after_the_ttl() {
    let mut cache = Cache::new();
    let mut upstream = Upstream { asked: 0, ttl: 1 };
    serve(&mut cache, &mut upstream, &mut query(1, "example.com"), 0);
    serve(&mut cache, &mut upstream, &mut query(2, "example.com"), SEC / 2);
    assert_eq!(upstream.asked, 1);
    serve(&mut cache, &mut upstream, &mut query(3, "example.com"), 2 * SEC);
    assert_eq!(upstream.asked, 2);
}

#[test]
fn malformed_datagram_is_forwarded_as_it_came() {
    let mut cache = Cache::new();
    let mut datagram = vec![0xDEu8, 0xAD, 0x01];
    assert_eq!(forward(&cache, &mut datagram, 0), EitherBuf::Req(vec![0xDE, 0xAD, 0x01]));
    assert_eq!(datagram, vec![0xDE, 0xAD, 0x01]);
    // what comes back for it is handed on and not kept
    assert_eq!(answered(&mut cache, vec![1, 2, 3], 0), vec![1, 2, 3]);
    // and a query that can be read is served as ever
    let mut upstream = Upstream { asked: 0, ttl: 60 };
    let reply = serve(&mut cache, &mut upstream, &mut query(1, "example.com"), 0);
    assert_eq!(decode(&reply).answers.len(), 1);
}

#[test]
fn first_success_wins_and_the_last_failure_stands_for_a_round_without_one() {
    fn round(outcomes: Vec<Result<u8, &'static str>>) -> (Result<u8, &'static str>, usize) {
        let mut tried = 0;
        let mut last = None;
        for outcome in outcomes {
            tried += 1;
            match after_try(outcome) {
                Round::Won(won) => return (Ok(won), tried),
                Round::Next(failed) => last = Some(failed),
            }
        }
        (Err(last.unwrap()), tried)
    }
    assert_eq!(after_try::<u8, u8>(Ok(3)), Round::Won(3));
    assert_eq!(after_try::<u8, u8>(Err(4)), Round::Next(4));
    assert_eq!(round(vec![Err("a"), Ok(7), Ok(8), Err("b")]), (Ok(7), 2));
    assert_eq!(round(vec![Err("a"), Err("b"), Err("c")]), (Err("c"), 3));
    assert_eq!(round(vec![Ok(1)]), (Ok(1), 1));
}
