use dns_proxy::bootstrap::{after_timeout, resolve_query, resolved, Address, Endpoint, MAX_RETRIES};
use dns_proxy::config::{upstream_named, UpstreamVariant};
use dns_proxy::dns::{Answer, Buf, Packet, Query, Question, Record};
use dns_proxy::error::DnsError;
use dns_proxy::https::{status_ok, HttpError, DNS_MESSAGE};

#[test]
fn upstream_is_told_by_its_scheme() {
    assert_eq!(
        UpstreamVariant::from_str("tls://dns.example:853"),
        UpstreamVariant::Tls(String::from("tls://dns.example:853"))
    );
    assert_eq!(
        UpstreamVariant::from_str("https://dns.example/dns-query"),
        UpstreamVariant::Https(String::from("https://dns.example/dns-query"))
    );
    assert_eq!(
        UpstreamVariant::from_str("1.1.1.1:53"),
        UpstreamVariant::Udp(String::from("1.1.1.1:53"))
    );
    assert_eq!(
        UpstreamVariant::from_str("http://dns.example"),
        UpstreamVariant::Udp(String::from("http://dns.example"))
    );
    assert_eq!(UpstreamVariant::from_str("tls:/"), UpstreamVariant::Udp(String::from("tls:/")));
    assert_eq!(UpstreamVariant::from_str(""), UpstreamVariant::Udp(String::new()));
}

#[test]
fn white_space_around_an_upstream_is_dropped() {
    assert_eq!(
        UpstreamVariant::from_str("  tls://dns.example \n"),
        UpstreamVariant::Tls(String::from("tls://dns.example"))
    );
    assert_eq!(
        UpstreamVariant::from_str("\t8.8.8.8:53 "),
        UpstreamVariant::Udp(String::from("8.8.8.8:53"))
    );
    // the scheme is looked for behind the white space only
    assert_eq!(
        UpstreamVariant::from_str(" https://a"),
        UpstreamVariant::Https(String::from("https://a"))
    );
}

#[test]
fn bootstrap_query_bytes() {
    let bytes = resolve_query("dns.example").unwrap();
    assert_eq!(
        bytes,
        vec![
            0, 0, 0, 0, 0, 1, 0, 0, 0, 0, 0, 0, 3, b'd', b'n', b's', 7, b'e', b'x', b'a', b'm',
            b'p', b'l', b'e', 0, 0, 1, 0, 1
        ]
    );
    assert_eq!(resolve_query(&"a".repeat(64)), Err(DnsError::InvalidLabel));
    let long = vec!["a".repeat(60); 9].join(".");
    assert_eq!(resolve_query(&long), Err(DnsError::BufferOverflow));
}

#[test]
fn endpoints_of_a_reply() {
    let mut storage = [0u8; 512];
    let mut buf = Buf::new(&mut storage);
    let mut packet = Packet::new();
    packet.questions.push(Question::new(String::from("dns.example"), Query::A));
    let name = || String::from("dns.example");
    packet.answers.push(Answer::new(name(), 1, Record::CNAME { host: String::from("x.example") }));
    packet.answers.push(Answer::new(name(), 1, Record::A { addr: [192, 0, 2, 7] }));
    packet.answers.push(Answer::new(
        name(),
        1,
        Record::AAAA { addr: [0x2001, 0xdb8, 0, 0, 0, 0, 0, 1] },
    ));
    packet.answers.push(Answer::new(name(), 1, Record::A { addr: [192, 0, 2, 8] }));
    packet.resources.push(Answer::new(name(), 1, Record::A { addr: [10, 0, 0, 1] }));
    packet.write(&mut buf).unwrap();
    let mut reply = buf.as_slice().to_vec();
    assert_eq!(
        resolved(&mut reply, 853),
        Ok(vec![
            Endpoint { addr: Address::V4([192, 0, 2, 7]), port: 853 },
            Endpoint { addr: Address::V6([0x2001, 0xdb8, 0, 0, 0, 0, 0, 1]), port: 853 },
            Endpoint { addr: Address::V4([192, 0, 2, 8]), port: 853 },
        ])
    );
    reply.truncate(reply.len() - 30);
    assert_eq!(resolved(&mut reply, 853), Err(DnsError::BufferOverflow));
}

#[test]
fn resolver_gives_up_after_ten_repeats() {
    assert_eq!(MAX_RETRIES, 10);
    let mut retries = 0;
    let mut sent = 1;
    while let Some(next) = after_timeout(retries) {
        retries = next;
        sent += 1;
    }
    assert_eq!(retries, 10);
    assert_eq!(sent, 11);
    assert_eq!(after_timeout(0), Some(1));
    assert_eq!(after_timeout(9), Some(10));
    assert_eq!(after_timeout(10), None);
    assert_eq!(after_timeout(u32::MAX), None);
}

#[test]
fn doh_response_that_is_not_a_success() {
    assert_eq!(DNS_MESSAGE, "application/dns-message");
    assert!(status_ok(200));
    assert!(!status_ok(500));
    assert!(!status_ok(204));
    let e = HttpError::new(
        String::from("https://dns.example/dns-query"),
        500,
        vec![(String::from("content-type"), String::from("text/plain"))],
        String::from("nope"),
    );
    let text = e.message();
    assert!(text.contains("500"));
    assert!(text.contains("nope"));
    assert_eq!(
        text,
        "https://dns.example/dns-query proxy error response { status: 500, \
         headers: [content-type: text/plain], body: nope }"
    );
}

#[test]
fn status_and_headers_in_the_text_of_an_error() {
    let text = |status: u16, headers: &[(&str, &str)]| {
        let headers = headers
            .iter()
            .map(|(name, value)| (String::from(*name), String::from(*value)))
            .collect();
        HttpError::new(String::from("u"), status, headers, String::new()).message()
    };
    assert_eq!(text(0, &[]), "u proxy error response { status: 0, headers: [], body:  }");
    assert_eq!(text(7, &[]), "u proxy error response { status: 7, headers: [], body:  }");
    assert_eq!(
        text(65535, &[("a", "1"), ("b", "2"), ("c", "")]),
        "u proxy error response { status: 65535, headers: [a: 1, b: 2, c: ], body:  }"
    );
    assert_eq!(text(404, &[]), "u proxy error response { status: 404, headers: [], body:  }");
    assert_eq!(text(1020, &[]), "u proxy error response { status: 1020, headers: [], body:  }");
}

#[test]
fn upstream_named_takes_the_text_as_it_stands() {
    assert_eq!(
        upstream_named("tls://dns.example"),
        UpstreamVariant::Tls(String::from("tls://dns.example"))
    );
    assert_eq!(
        upstream_named("https://dns.example/q"),
        UpstreamVariant::Https(String::from("https://dns.example/q"))
    );
    assert_eq!(
        upstream_named(" tls://dns.example"),
        UpstreamVariant::Udp(String::from(" tls://dns.example"))
    );
    assert_eq!(upstream_named("tls://"), UpstreamVariant::Tls(String::from("tls://")));
    assert_eq!(upstream_named("TLS://x"), UpstreamVariant::Udp(String::from("TLS://x")));
    assert_eq!(upstream_named("9.9.9.9:53"), UpstreamVariant::Udp(String::from("9.9.9.9:53")));
}
