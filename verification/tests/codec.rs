use dns_proxy::dns::{
    eof_err, label_len_check, Answer, Buf, Header, Packet, Query, Question, Record, ResultCode,
    MAX_JUMPS,
};
use dns_proxy::error::DnsError;

fn query_bytes(id: u16, name: &str) -> Vec<u8> {
    let mut storage = [0u8; 512];
    let mut buf = Buf::new(&mut storage);
    let mut packet = Packet::new();
    packet.header.id = id;
    packet.header.recursion_desired = true;
    packet.questions.push(Question::new(String::from(name), Query::A));
    packet.write(&mut buf).unwrap();
    buf.as_slice().to_vec()
}

fn written(packet: &mut Packet) -> Vec<u8> {
    let mut storage = [0u8; 512];
    let mut buf = Buf::new(&mut storage);
    packet.write(&mut buf).unwrap();
    buf.as_slice().to_vec()
}

fn read_back(bytes: &[u8]) -> Packet {
    let mut copy = bytes.to_vec();
    let mut packet = Packet::new();
    packet.read(&mut Buf::new(&mut copy)).unwrap();
    packet
}

fn answer(domain: &str, ttl: u32, record: Record) -> Answer {
    Answer::new(String::from(domain), ttl, record)
}

#[test]
fn query_has_the_expected_bytes() {
    let bytes = query_bytes(0x1234, "example.com");
    let expected: Vec<u8> = vec![
        0x12, 0x34, 0x01, 0x00, 0x00, 0x01, 0x00, 0x00, 0x00, 0x00, 0x00, 0x00, 7, b'e', b'x',
        b'a', b'm', b'p', b'l', b'e', 3, b'c', b'o', b'm', 0, 0, 1, 0, 1,
    ];
    assert_eq!(bytes, expected);
}

#[test]
fn query_round_trip() {
    let mut bytes = query_bytes(7, "Example.COM");
    let mut packet = Packet::new();
    packet.read(&mut Buf::new(&mut bytes)).unwrap();
    assert_eq!(packet.header.id, 7);
    assert!(packet.header.recursion_desired);
    assert_eq!(packet.header.questions, 1);
    assert_eq!(packet.questions, vec![Question::new(String::from("example.com"), Query::A)]);
    assert!(packet.answers.is_empty());
}

#[test]
fn short_datagram_is_an_overflow() {
    let mut bytes = vec![1u8, 2, 3];
    let mut packet = Packet::new();
    let r = packet.read(&mut Buf::new(&mut bytes));
    assert_eq!(r, Err(DnsError::BufferOverflow));
    assert_eq!(packet.header, Header::new());
    assert_eq!(bytes, vec![1u8, 2, 3]);
}

#[test]
fn answer_with_pointer_to_question_name() {
    let mut bytes = query_bytes(1, "example.com");
    bytes[2] = 0x81;
    bytes[3] = 0x80;
    bytes[7] = 1;
    bytes.extend_from_slice(&[0xC0, 12, 0, 1, 0, 1, 0, 0, 0, 60, 0, 4, 93, 184, 216, 34]);
    let mut packet = Packet::new();
    let mut buf = Buf::new(&mut bytes);
    packet.read(&mut buf).unwrap();
    assert_eq!(buf.pos, 45);
    assert!(packet.header.response);
    assert!(packet.header.recursion_available);
    assert_eq!(packet.header.rescode, ResultCode::NOERROR);
    assert_eq!(
        packet.answers,
        vec![answer("example.com", 60, Record::A { addr: [93, 184, 216, 34] })]
    );
}

#[test]
fn two_chained_pointers_give_the_same_name() {
    let mut bytes = query_bytes(1, "example.com");
    bytes[7] = 2;
    // the first answer's name points at the question's name
    bytes.extend_from_slice(&[0xC0, 12, 0, 1, 0, 1, 0, 0, 0, 60, 0, 4, 1, 2, 3, 4]);
    // the second answer's name points at the pointer of the first
    bytes.extend_from_slice(&[0xC0, 29, 0, 1, 0, 1, 0, 0, 0, 30, 0, 4, 5, 6, 7, 8]);
    let packet = read_back(&bytes);
    assert_eq!(
        packet.answers,
        vec![
            answer("example.com", 60, Record::A { addr: [1, 2, 3, 4] }),
            answer("example.com", 30, Record::A { addr: [5, 6, 7, 8] }),
        ]
    );
}

#[test]
fn label_before_a_pointer_is_joined_with_a_dot() {
    let mut bytes = query_bytes(1, "example.com");
    bytes[7] = 1;
    bytes.extend_from_slice(&[3, b'W', b'w', b'W', 0xC0, 12, 0, 5, 0, 1, 0, 0, 0, 9, 0, 2, 0xC0, 12]);
    let packet = read_back(&bytes);
    assert_eq!(
        packet.answers,
        vec![answer(
            "www.example.com",
            9,
            Record::CNAME { host: String::from("example.com") }
        )]
    );
}

#[test]
fn pointer_loop_is_refused() {
    let mut bytes = vec![0u8; 12];
    bytes[5] = 1;
    bytes.extend_from_slice(&[0xC0, 12, 0, 1, 0, 1]);
    let mut packet = Packet::new();
    let mut buf = Buf::new(&mut bytes);
    assert_eq!(packet.read(&mut buf), Err(DnsError::TooManyJumps));
    assert!(packet.questions.is_empty());
}

#[test]
fn a_chain_of_max_jumps_pointers_is_followed() {
    assert_eq!(MAX_JUMPS, 512);
    // two pointers in a row and then the name
    let mut bytes = vec![0xC0u8, 2, 0xC0, 4, 1, b'a', 0];
    let mut buf = Buf::new(&mut bytes);
    let mut name = String::from(">");
    buf.read_qname(&mut name).unwrap();
    assert_eq!(name, ">a");
    assert_eq!(buf.pos, 2);
}

#[test]
fn name_without_pointer_moves_the_cursor_behind_its_end() {
    let mut bytes = vec![1u8, b'A', 2, b'b', b'C', 0, 9, 9];
    let mut buf = Buf::new(&mut bytes);
    let mut name = String::new();
    buf.read_qname(&mut name).unwrap();
    assert_eq!(name, "a.bc");
    assert_eq!(buf.pos, 6);
}

#[test]
fn name_that_runs_out_of_the_window_leaves_all_as_it_was() {
    let mut bytes = vec![1u8, b'a', 5, b'b'];
    let mut buf = Buf::new(&mut bytes);
    buf.pos = 0;
    let mut name = String::from("kept");
    assert_eq!(buf.read_qname(&mut name), Err(DnsError::BufferOverflow));
    assert_eq!(name, "kept");
    assert_eq!(buf.pos, 0);
}

#[test]
fn invalid_utf8_label_is_replaced_and_upper_case_is_lowered() {
    let mut bytes = vec![2u8, 0xFF, b'Z', 2, 0xC3, 0x84, 0];
    let mut buf = Buf::new(&mut bytes);
    let mut name = String::new();
    buf.read_qname(&mut name).unwrap();
    assert_eq!(name, "\u{FFFD}z.\u{e4}");
}

#[test]
fn label_of_63_bytes_is_written_and_one_of_64_is_not() {
    let long = "a".repeat(63);
    let mut storage = [0u8; 512];
    let mut buf = Buf::new(&mut storage);
    assert_eq!(buf.write_qname(&long), Ok(()));
    assert_eq!(buf.pos, 65);
    assert_eq!(buf.as_slice()[0], 63);

    let too_long = format!("ok.{}", "a".repeat(64));
    let mut storage = [0u8; 512];
    let mut buf = Buf::new(&mut storage);
    assert_eq!(buf.write_qname(&too_long), Err(DnsError::InvalidLabel));
    assert_eq!(label_len_check(63), Ok(()));
    assert_eq!(label_len_check(64), Err(DnsError::InvalidLabel));
}

#[test]
fn empty_name_is_written_as_two_zero_bytes() {
    let mut storage = [7u8; 16];
    let mut buf = Buf::new(&mut storage);
    buf.write_qname("").unwrap();
    assert_eq!(buf.as_slice(), &[0, 0]);
}

#[test]
fn name_that_does_not_fit_is_an_overflow() {
    let mut storage = [0u8; 8];
    let mut buf = Buf::new(&mut storage);
    assert_eq!(buf.write_qname("example.com"), Err(DnsError::BufferOverflow));
    let mut storage = [0u8; 13];
    let mut buf = Buf::new(&mut storage);
    assert_eq!(buf.write_qname("example.com"), Ok(()));
    assert_eq!(buf.pos, 13);
}

#[test]
fn nothing_is_written_behind_offset_512() {
    let mut storage = [0u8; 600];
    let mut buf = Buf::new(&mut storage);
    buf.seek(511);
    assert_eq!(buf.write_u8(1), Ok(()));
    assert_eq!(buf.write_u8(2), Err(DnsError::BufferOverflow));
    assert_eq!(buf.pos, 512);
    assert_eq!(buf.read(), Err(DnsError::BufferOverflow));
    assert_eq!(buf.get(512), Err(DnsError::BufferOverflow));
    assert_eq!(buf.get(511), Ok(1));
    assert_eq!(storage[511], 1);
    assert_eq!(storage[512], 0);
    assert_eq!(eof_err(), DnsError::BufferOverflow);
}

#[test]
fn bytes_behind_the_window_have_no_part_in_what_is_read() {
    let mut first = query_bytes(3, "example.com");
    first.resize(600, 0);
    let mut second = first.clone();
    for byte in second[512..].iter_mut() {
        *byte = 0xAB;
    }
    let mut a = Packet::new();
    let mut b = Packet::new();
    let ra = a.read(&mut Buf::new(&mut first));
    let rb = b.read(&mut Buf::new(&mut second));
    assert_eq!(ra, rb);
    assert_eq!(a.header, b.header);
    assert_eq!(a.questions, b.questions);
}

#[test]
fn reads_of_numbers_are_in_network_order() {
    let mut bytes = vec![0x12u8, 0x34, 0xDE, 0xAD, 0xBE, 0xEF, 0x56];
    let mut buf = Buf::new(&mut bytes);
    assert_eq!(buf.read_u16(), Ok(0x1234));
    assert_eq!(buf.read_u32(), Ok(0xDEADBEEF));
    assert_eq!(buf.read_u16(), Err(DnsError::BufferOverflow));
    assert_eq!(buf.pos, 6);
    assert_eq!(buf.read(), Ok(0x56));
    assert_eq!(buf.read_u32(), Err(DnsError::BufferOverflow));
    assert_eq!(buf.get_range(1, 3).map(|s| s.to_vec()), Ok(vec![0x34, 0xDE, 0xAD]));
    assert_eq!(buf.get_range(4, 3).map(|s| s.to_vec()), Ok(vec![0xBE, 0xEF, 0x56]));
    assert!(buf.get_range(5, 3).is_err());
}

#[test]
fn writes_of_numbers_are_in_network_order() {
    let mut storage = [0u8; 9];
    let mut buf = Buf::new(&mut storage);
    buf.write_u16(0x1234).unwrap();
    buf.write_u32(0xDEADBEEF).unwrap();
    buf.write(0x56).unwrap();
    buf.set(0, 0xFF);
    buf.set_u16(7, 0xA1B2);
    buf.step(1);
    assert_eq!(buf.as_slice(), &[0xFF, 0x34, 0xDE, 0xAD, 0xBE, 0xEF, 0x56, 0xA1]);
    assert_eq!(buf.write_u16(1), Err(DnsError::BufferOverflow));
    assert_eq!(storage, [0xFF, 0x34, 0xDE, 0xAD, 0xBE, 0xEF, 0x56, 0xA1, 0x00]);
}

#[test]
fn header_bits() {
    let mut header = Header::new();
    header.id = 0xBEEF;
    header.recursion_desired = true;
    header.authoritative_answer = true;
    header.opcode = 2;
    header.response = true;
    header.rescode = ResultCode::NXDOMAIN;
    header.authed_data = true;
    header.recursion_available = true;
    header.questions = 1;
    header.answers = 0x0203;
    header.authoritative_entries = 4;
    header.resource_entries = 5;
    let mut storage = [0u8; 12];
    let mut buf = Buf::new(&mut storage);
    header.write(&mut buf).unwrap();
    assert_eq!(buf.pos, 12);
    assert_eq!(storage, [0xBE, 0xEF, 0x95, 0xA3, 0, 1, 2, 3, 0, 4, 0, 5]);

    let mut back = Header::new();
    back.read(&mut Buf::new(&mut storage)).unwrap();
    assert_eq!(back, header);

    let mut storage = [0u8; 11];
    assert_eq!(header.write(&mut Buf::new(&mut storage)), Err(DnsError::BufferOverflow));
    let mut untouched = Header::new();
    untouched.id = 9;
    assert_eq!(untouched.read(&mut Buf::new(&mut storage)), Err(DnsError::BufferOverflow));
    assert_eq!(untouched.id, 9);
}

#[test]
fn every_flag_has_its_own_bit() {
    let mut bytes = [0u8; 12];
    bytes[2] = 0x02;
    bytes[3] = 0x50;
    let mut header = Header::new();
    header.read(&mut Buf::new(&mut bytes)).unwrap();
    assert!(header.truncated_message);
    assert!(header.checking_disabled);
    assert!(header.z);
    assert!(!header.recursion_desired && !header.authoritative_answer && !header.response);
    assert!(!header.authed_data && !header.recursion_available);
    assert_eq!(header.opcode, 0);
    bytes[2] = 0x78;
    header.read(&mut Buf::new(&mut bytes)).unwrap();
    assert_eq!(header.opcode, 15);
    assert!(!header.response);
}

#[test]
fn result_codes() {
    assert_eq!(ResultCode::from(0), ResultCode::NOERROR);
    assert_eq!(ResultCode::from(1), ResultCode::FORMERR);
    assert_eq!(ResultCode::from(2), ResultCode::SERVFAIL);
    assert_eq!(ResultCode::from(3), ResultCode::NXDOMAIN);
    assert_eq!(ResultCode::from(4), ResultCode::NOTIMP);
    assert_eq!(ResultCode::from(5), ResultCode::REFUSED);
    assert_eq!(ResultCode::from(6), ResultCode::NOERROR);
    assert_eq!(ResultCode::from(15), ResultCode::NOERROR);
    assert_eq!(ResultCode::REFUSED.code(), 5);
}

#[test]
fn query_types() {
    for (num, query) in [
        (1u16, Query::A),
        (2, Query::NS),
        (5, Query::CNAME),
        (15, Query::MX),
        (28, Query::AAAA),
        (41, Query::UNKNOWN(41)),
        (0, Query::UNKNOWN(0)),
    ] {
        assert_eq!(Query::from(num), query);
        assert_eq!(u16::from(query), num);
    }
    assert_eq!(u16::from(Query::UNKNOWN(1)), 1);
}

#[test]
fn every_written_record_type_is_read_back() {
    let mut packet = Packet::new();
    packet.header.id = 0x4242;
    packet.header.response = true;
    packet.header.opcode = 1;
    packet.questions.push(Question::new(String::from("Mail.Example.ORG"), Query::MX));
    packet.questions.push(Question::new(String::from("x.y"), Query::UNKNOWN(99)));
    packet.answers.push(answer("a.example", 300, Record::A { addr: [192, 0, 2, 1] }));
    packet.answers.push(answer(
        "a.example",
        301,
        Record::AAAA { addr: [0x2001, 0xdb8, 0, 0, 0, 0, 0xff00, 0x42] },
    ));
    packet.answers.push(answer(
        "Mail.Example.ORG",
        5,
        Record::MX { priority: 10, host: String::from("MX1.example.org") },
    ));
    packet.authorities.push(answer(
        "example.org",
        86400,
        Record::NS { host: String::from("ns.example.org") },
    ));
    packet.resources.push(answer(
        "alias.example.org",
        0xFFFF_FFFF,
        Record::CNAME { host: String::from("target.example.org") },
    ));
    let bytes = written(&mut packet);
    assert_eq!(packet.header.questions, 2);
    assert_eq!(packet.header.answers, 3);
    assert_eq!(packet.header.authoritative_entries, 1);
    assert_eq!(packet.header.resource_entries, 1);

    let back = read_back(&bytes);
    assert_eq!(back.header, packet.header);
    assert_eq!(
        back.questions,
        vec![
            Question::new(String::from("mail.example.org"), Query::MX),
            Question::new(String::from("x.y"), Query::UNKNOWN(99)),
        ]
    );
    assert_eq!(
        back.answers,
        vec![
            answer("a.example", 300, Record::A { addr: [192, 0, 2, 1] }),
            answer(
                "a.example",
                301,
                Record::AAAA { addr: [0x2001, 0xdb8, 0, 0, 0, 0, 0xff00, 0x42] }
            ),
            answer(
                "mail.example.org",
                5,
                Record::MX { priority: 10, host: String::from("mx1.example.org") }
            ),
        ]
    );
    assert_eq!(
        back.authorities,
        vec![answer("example.org", 86400, Record::NS { host: String::from("ns.example.org") })]
    );
    assert_eq!(
        back.resources,
        vec![answer(
            "alias.example.org",
            0xFFFF_FFFF,
            Record::CNAME { host: String::from("target.example.org") }
        )]
    );
}

#[test]
fn record_bytes_are_exact() {
    let mut storage = [0u8; 64];
    let mut buf = Buf::new(&mut storage);
    let mx = answer("a.b", 0x01020304, Record::MX { priority: 0x0A0B, host: String::from("m.b") });
    assert_eq!(mx.write(&mut buf), Ok(22));
    assert_eq!(
        buf.as_slice(),
        &[
            1, b'a', 1, b'b', 0, 0, 15, 0, 1, 1, 2, 3, 4, 0, 7, 0x0A, 0x0B, 1, b'm', 1, b'b', 0
        ]
    );
    let a = answer("a", 1, Record::A { addr: [9, 8, 7, 6] });
    assert_eq!(a.write(&mut buf), Ok(17));
    assert_eq!(&buf.as_slice()[22..], &[1, b'a', 0, 0, 1, 0, 1, 0, 0, 0, 1, 0, 4, 9, 8, 7, 6]);
    assert_eq!(a.ttl(), 1);
    assert_eq!(a.record(), &Record::A { addr: [9, 8, 7, 6] });
}

#[test]
fn unknown_record_is_passed_over_on_write() {
    let unknown = answer("a.b", 1, Record::UNKNOWN { qtype: 41, data_len: 3 });
    let mut storage = [0u8; 64];
    let mut buf = Buf::new(&mut storage);
    assert_eq!(unknown.write(&mut buf), Ok(0));
    assert_eq!(buf.pos, 0);

    let mut packet = Packet::new();
    packet.answers.push(unknown);
    let bytes = written(&mut packet);
    assert_eq!(bytes, vec![0, 0, 0, 0, 0, 0, 0, 1, 0, 0, 0, 0]);
}

#[test]
fn unknown_record_is_read_with_its_data_skipped() {
    let mut bytes = vec![0u8; 12];
    bytes[7] = 2;
    bytes.extend_from_slice(&[0, 0, 41, 0, 1, 0, 0, 0, 7, 0, 3, 0xAA, 0xBB, 0xCC]);
    bytes.extend_from_slice(&[1, b'q', 0, 0, 1, 0, 1, 0, 0, 0, 8, 0, 4, 1, 1, 1, 1]);
    let packet = read_back(&bytes);
    assert_eq!(
        packet.answers,
        vec![
            answer("", 7, Record::UNKNOWN { qtype: 41, data_len: 3 }),
            answer("q", 8, Record::A { addr: [1, 1, 1, 1] }),
        ]
    );
}

#[test]
fn unknown_record_with_data_behind_the_window_is_an_overflow() {
    let mut bytes = vec![0u8; 12];
    bytes[7] = 1;
    bytes.extend_from_slice(&[0, 0, 41, 0, 1, 0, 0, 0, 7, 0, 4, 0xAA, 0xBB, 0xCC]);
    let mut packet = Packet::new();
    assert_eq!(packet.read(&mut Buf::new(&mut bytes)), Err(DnsError::BufferOverflow));
    assert!(packet.answers.is_empty());
}

#[test]
fn bogus_count_is_an_overflow() {
    let mut bytes = query_bytes(1, "example.com");
    bytes[5] = 2;
    let mut packet = Packet::new();
    assert_eq!(packet.read(&mut Buf::new(&mut bytes)), Err(DnsError::BufferOverflow));
}

#[test]
fn packet_that_does_not_fit_is_an_overflow() {
    let mut packet = Packet::new();
    for _ in 0..40 {
        packet.answers.push(answer("example.com", 1, Record::A { addr: [1, 2, 3, 4] }));
    }
    let mut storage = [0u8; 512];
    let mut buf = Buf::new(&mut storage);
    assert_eq!(packet.write(&mut buf), Err(DnsError::BufferOverflow));
    assert_eq!(packet.header.answers, 40);
}

#[test]
fn query_read_passes_over_the_answer_section() {
    let mut bytes = query_bytes(5, "example.com");
    bytes[11] = 1;
    bytes.extend_from_slice(&[0, 0, 41, 0x10, 0, 0, 0, 0, 0, 0, 0]);
    let mut packet = Packet::new_ref();
    packet.read(&mut Buf::new(&mut bytes)).unwrap();
    assert_eq!(packet.questions, vec![Question::new(String::from("example.com"), Query::A)]);
    assert!(packet.answers.is_empty());
    assert_eq!(
        packet.resources,
        vec![answer("", 0, Record::UNKNOWN { qtype: 41, data_len: 0 })]
    );

    let answers = vec![answer("example.com", 60, Record::A { addr: [93, 184, 216, 34] })];
    packet.answers = &answers;
    let mut storage = [0u8; 512];
    let mut buf = Buf::new(&mut storage);
    packet.write(&mut buf).unwrap();
    assert_eq!(packet.header.answers, 1);
    assert_eq!(packet.header.resource_entries, 1);
    assert_eq!(buf.pos, 29 + 27);
}

#[test]
fn error_messages() {
    assert_eq!(
        DnsError::BufferOverflow.message(),
        "buffer overflow. Buf is limited to 512 bytes"
    );
    assert_eq!(
        DnsError::InvalidLabel.message(),
        "Single label exceeds 63 characters of length"
    );
    assert_eq!(DnsError::TooManyJumps.message(), "name holds too many compression pointers");
}

#[test]
fn pointer_out_of_the_window_is_an_overflow() {
    let mut bytes = vec![0xC0u8, 7, 0, 0, 0, 0, 0];
    let mut buf = Buf::new(&mut bytes);
    let mut name = String::new();
    assert_eq!(buf.read_qname(&mut name), Err(DnsError::BufferOverflow));
    assert_eq!(buf.pos, 0);
    let mut bytes = vec![0xFFu8, 0xFF];
    let mut buf = Buf::new(&mut bytes);
    assert_eq!(buf.read_qname(&mut name), Err(DnsError::BufferOverflow));
    let mut bytes = vec![1, b'a', 0xC0];
    let mut buf = Buf::new(&mut bytes);
    assert_eq!(buf.read_qname(&mut name), Err(DnsError::BufferOverflow));
    assert_eq!(name, "");
}

#[test]
fn length_below_the_pointer_mark_is_a_length_on_read() {
    let mut bytes = vec![64u8];
    bytes.extend_from_slice(&[b'A'; 64]);
    bytes.push(0);
    let mut buf = Buf::new(&mut bytes);
    let mut name = String::new();
    assert_eq!(buf.read_qname(&mut name), Ok(()));
    assert_eq!(name, "a".repeat(64));
    assert_eq!(buf.pos, 66);
}

#[test]
fn window_ends_with_the_slice_where_that_is_shorter() {
    let mut bytes = vec![9u8, 8];
    let mut buf = Buf::new(&mut bytes);
    assert_eq!(buf.end(), 2);
    buf.seek(2);
    assert_eq!(buf.write(1), Err(DnsError::BufferOverflow));
    assert_eq!(buf.as_slice(), &[9, 8]);
    let mut bytes = vec![0u8; 1000];
    assert_eq!(Buf::new(&mut bytes).end(), 512);
}
