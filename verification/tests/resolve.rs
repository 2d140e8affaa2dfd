use dns_server::resolver::{
    handle, handle_with, matching_records, resolve_question, respond, respond_with,
};
use dns_server::record::parse_address;
use dns_server::types::same_text;
use dns_server::zone::{load_records, parse_line, record_from_fields};
use dns_server::{Answer, DnsError, DnsQuery, DnsRecord, QClass, QType, Question};

fn question(name: &str, qtype: QType) -> Question {
    Question { qname: name.to_string(), qtype, qclass: QClass::IN }
}

fn query(questions: Vec<Question>) -> DnsQuery {
    let mut message = DnsQuery::new();
    message.header.id = 0x4242;
    message.header.flags.recursion_desired = true;
    message.header.flags.opcode = 2;
    message.header.questions = questions.len() as u16;
    message.header.authorities = 9;
    message.header.additional = 9;
    message.header.flags.truncate = true;
    message.header.flags.authorihative_answer = true;
    message.header.flags.recursion_available = true;
    message.questions = questions;
    message
}

fn store() -> Vec<DnsRecord> {
    vec![
        DnsRecord::new("x", "IN", "A", "1.2.3.4"),
        DnsRecord::new("twin", "IN", "A", "10.0.0.1"),
        DnsRecord::new("alias", "IN", "CNAME", "a.b.c"),
        DnsRecord::new("twin", "IN", "A", "10.0.0.2"),
        DnsRecord::new("bad", "IN", "A", "1.2.x.4"),
    ]
}

#[test]
fn record_new_keeps_its_fields() {
    let record = DnsRecord::new("x", "IN", "CNAME", "y.z");
    assert_eq!(record.qname, "x");
    assert_eq!(record.qclass, QClass::IN);
    assert_eq!(record.qtype, QType::CNAME);
    assert_eq!(record.data(), Ok(vec![1, b'y', 1, b'z', 0]));
}

#[test]
fn record_try_new_refuses_unknown_names() {
    assert!(DnsRecord::try_new("x", "IN", "A", "1.2.3.4").is_some());
    assert!(DnsRecord::try_new("x", "CH", "A", "1.2.3.4").is_none());
    assert!(DnsRecord::try_new("x", "IN", "MX", "1.2.3.4").is_none());
    assert!(DnsRecord::try_new("x", "in", "a", "1.2.3.4").is_none());
    assert_eq!(
        DnsRecord::try_new("x", "IN", "A", "1.2.3.4"),
        Some(DnsRecord::new("x", "IN", "A", "1.2.3.4"))
    );
}

#[test]
fn address_payload_is_four_octets() {
    assert_eq!(DnsRecord::new("x", "IN", "A", "1.2.3.4").data(), Ok(vec![1, 2, 3, 4]));
    assert_eq!(DnsRecord::new("x", "IN", "A", "0.0.0.0").data(), Ok(vec![0, 0, 0, 0]));
    assert_eq!(
        DnsRecord::new("x", "IN", "A", "255.255.255.255").data(),
        Ok(vec![255, 255, 255, 255])
    );
    assert_eq!(DnsRecord::new("x", "IN", "A", "192.168.001.10").data(), Ok(vec![192, 168, 1, 10]));
    assert_eq!(DnsRecord::new("x", "IN", "A", "1.2.3.4").length(), 4);
}

#[test]
fn address_text_parses_to_four_bytes() {
    assert_eq!(parse_address(b"1.2.3.4"), Some(vec![1, 2, 3, 4]));
    assert_eq!(parse_address(b"127.0.0.1"), Some(vec![127, 0, 0, 1]));
    assert_eq!(parse_address(b"0000.00.0.255"), Some(vec![0, 0, 0, 255]));
    assert_eq!(parse_address(b"1.2.3"), None);
    assert_eq!(parse_address(b"1.2.3.256"), None);
    assert_eq!(parse_address(b""), None);
    assert_eq!(parse_address("1.2.3.\u{663}".as_bytes()), None);
}

#[test]
fn same_text_compares_characters() {
    assert!(same_text("IN", "IN"));
    assert!(same_text("", ""));
    assert!(!same_text("IN", "in"));
    assert!(!same_text("A", "AA"));
    assert!(!same_text("A", ""));
}

#[test]
fn address_with_a_bad_octet_is_refused() {
    for value in [
        "1.2.x.4", "1.2.3.256", "1.2.3.999", "1.2.3.-4", "1.2.3.+4", "1.2.3. 4", "1.2.3.4a",
        "a.b.c.d", "1.2..4", ".1.2.3", "1.2.3.", "1,2,3,4", "0x1.2.3.4", "1.2.3.1000000000000",
    ] {
        assert_eq!(
            DnsRecord::new("x", "IN", "A", value).data(),
            Err(DnsError::MalformedAddress),
            "{}",
            value
        );
    }
}

#[test]
fn address_needs_exactly_four_octets() {
    for value in ["", "1", "1.2", "1.2.3", "1.2.3.4.5", "1.2.3.4."] {
        assert_eq!(
            DnsRecord::new("x", "IN", "A", value).data(),
            Err(DnsError::MalformedAddress),
            "{}",
            value
        );
    }
    assert_eq!(DnsRecord::new("x", "IN", "A", "not an address").length(), 4);
}

#[test]
fn name_payload_is_the_value_as_labels() {
    let record = DnsRecord::new("alias", "IN", "CNAME", "a.b.c");
    assert_eq!(record.data(), Ok(vec![1, b'a', 1, b'b', 1, b'c', 0]));
    assert_eq!(record.length(), 7);
    let single = DnsRecord::new("alias", "IN", "CNAME", "host");
    assert_eq!(single.data(), Ok(vec![4, b'h', b'o', b's', b't', 0]));
    assert_eq!(single.length(), 6);
    let empty = DnsRecord::new("alias", "IN", "CNAME", "");
    assert_eq!(empty.data(), Ok(vec![0, 0]));
    assert_eq!(empty.length(), 2);
}

#[test]
fn name_payload_length_is_the_byte_count() {
    for value in ["a", "a.b", "www.example.com", "x.y.z.w.v", "b\u{fc}cher.de"] {
        let record = DnsRecord::new("alias", "IN", "CNAME", value);
        assert_eq!(record.length(), record.data().unwrap().len());
        assert_eq!(record.length(), value.len() + 2);
    }
}

#[test]
fn record_matches_on_type_class_and_name() {
    let record = DnsRecord::new("x", "IN", "A", "1.2.3.4");
    assert!(record.matches(&question("x", QType::A)));
    assert!(!record.matches(&question("X", QType::A)));
    assert!(!record.matches(&question("x.", QType::A)));
    assert!(!record.matches(&question("sub.x", QType::A)));
    assert!(!record.matches(&question("x", QType::CNAME)));
    assert!(!record.matches(&Question {
        qname: "x".to_string(),
        qtype: QType::A,
        qclass: QClass::Unknown(3)
    }));
}

#[test]
fn record_answer_is_synthesized() {
    let answer = DnsRecord::new("alias", "IN", "CNAME", "a.b.c").answer().unwrap();
    assert_eq!(
        answer,
        Answer {
            name: "alias".to_string(),
            qtype: QType::CNAME,
            qclass: QClass::IN,
            ttl: 60,
            length: 7,
            data: vec![1, b'a', 1, b'b', 1, b'c', 0],
        }
    );
    assert_eq!(
        DnsRecord::new("bad", "IN", "A", "1.2.x.4").answer(),
        Err(DnsError::MalformedAddress)
    );
}

#[test]
fn matching_records_keep_the_order_of_the_store() {
    let records = store();
    assert_eq!(matching_records(&records, &question("twin", QType::A)), vec![1, 3]);
    assert_eq!(matching_records(&records, &question("x", QType::A)), vec![0]);
    assert_eq!(matching_records(&records, &question("nobody", QType::A)), Vec::<usize>::new());
    assert_eq!(matching_records(&vec![], &question("x", QType::A)), Vec::<usize>::new());
}

#[test]
fn exact_match_gives_one_answer() {
    let records = vec![DnsRecord::new("x", "IN", "A", "1.2.3.4")];
    let reply = respond_with(query(vec![question("x", QType::A)]), &records, &[0]).unwrap();
    assert_eq!(reply.answers.len(), 1);
    assert_eq!(reply.answers[0].data, vec![1, 2, 3, 4]);
    assert_eq!(reply.answers[0].ttl, 60);
    assert_eq!(reply.answers[0].length, 4);
    assert_eq!(reply.answers[0].name, "x");
    assert_eq!(reply.answers[0].qtype, QType::A);
    assert_eq!(reply.answers[0].qclass, QClass::IN);
    assert_eq!(reply.header.flags.response_code, 0);
    assert_eq!(reply.header.answers, 1);
}

#[test]
fn exact_match_whatever_is_drawn() {
    let records = vec![DnsRecord::new("x", "IN", "A", "1.2.3.4")];
    for draw in [0u32, 1, 2, 7, 0xFFFF_FFFF] {
        let reply =
            respond_with(query(vec![question("x", QType::A)]), &records, &[draw]).unwrap();
        assert_eq!(reply.answers.len(), 1);
        assert_eq!(reply.answers[0].data, vec![1, 2, 3, 4]);
    }
    let reply = respond(query(vec![question("x", QType::A)]), &records).unwrap();
    assert_eq!(reply.answers.len(), 1);
    assert_eq!(reply.answers[0].data, vec![1, 2, 3, 4]);
    assert_eq!(reply.header.flags.response_code, 0);
}

#[test]
fn no_match_gives_no_answer() {
    let records = store();
    let reply = respond_with(query(vec![question("nobody", QType::A)]), &records, &[5]).unwrap();
    assert!(reply.answers.is_empty());
    assert_eq!(reply.header.answers, 0);
    assert_eq!(reply.header.flags.response_code, 3);
    assert_eq!(reply.questions, vec![question("nobody", QType::A)]);
    let reply = respond(query(vec![question("nobody", QType::A)]), &records).unwrap();
    assert!(reply.answers.is_empty());
    assert_eq!(reply.header.flags.response_code, 3);
}

#[test]
fn mixed_batch_answers_what_it_can() {
    let records = store();
    let reply = respond_with(
        query(vec![question("x", QType::A), question("nobody", QType::A)]),
        &records,
        &[0, 0],
    )
    .unwrap();
    assert_eq!(reply.answers.len(), 1);
    assert_eq!(reply.header.answers, 1);
    assert_eq!(reply.header.flags.response_code, 3);
    assert_eq!(reply.answers[0].name, "x");
    let reply = respond_with(
        query(vec![question("nobody", QType::A), question("alias", QType::CNAME)]),
        &records,
        &[0, 0],
    )
    .unwrap();
    assert_eq!(reply.answers.len(), 1);
    assert_eq!(reply.answers[0].name, "alias");
    assert_eq!(reply.header.flags.response_code, 3);
}

#[test]
fn every_question_answered_gives_code_zero() {
    let records = store();
    let reply = respond_with(
        query(vec![question("x", QType::A), question("alias", QType::CNAME)]),
        &records,
        &[3, 4],
    )
    .unwrap();
    assert_eq!(reply.answers.len(), 2);
    assert_eq!(reply.header.answers, 2);
    assert_eq!(reply.header.flags.response_code, 0);
    assert_eq!(reply.answers[0].data, vec![1, 2, 3, 4]);
    assert_eq!(reply.answers[1].data, vec![1, b'a', 1, b'b', 1, b'c', 0]);
    assert_eq!(reply.answers[1].length, 7);
}

#[test]
fn no_questions_give_code_zero() {
    let reply = respond_with(query(vec![]), &store(), &[]).unwrap();
    assert!(reply.answers.is_empty());
    assert_eq!(reply.header.flags.response_code, 0);
}

#[test]
fn response_header_is_set() {
    let reply = respond_with(query(vec![question("x", QType::A)]), &store(), &[0]).unwrap();
    assert_eq!(reply.header.id, 0x4242);
    assert_eq!(reply.header.questions, 1);
    assert_eq!(reply.header.authorities, 0);
    assert_eq!(reply.header.additional, 0);
    assert!(reply.header.flags.qr);
    assert!(reply.header.flags.recursion_desired);
    assert_eq!(reply.header.flags.opcode, 2);
    assert!(!reply.header.flags.authorihative_answer);
    assert!(!reply.header.flags.truncate);
    assert!(!reply.header.flags.recursion_available);
}

#[test]
fn answer_count_wraps_at_sixteen_bits() {
    let records = vec![DnsRecord::new("x", "IN", "A", "1.2.3.4")];
    let questions: Vec<Question> = (0..65537).map(|_| question("x", QType::A)).collect();
    let reply = respond_with(query(questions), &records, &[]).unwrap();
    assert_eq!(reply.answers.len(), 65537);
    assert_eq!(reply.header.answers, 1);
    assert_eq!(reply.header.flags.response_code, 0);
}

#[test]
fn declared_length_wraps_at_sixteen_bits() {
    let value = "a".repeat(70000);
    let record = DnsRecord::new("long", "IN", "CNAME", &value);
    assert_eq!(record.length(), 70002);
    let answer = record.answer().unwrap();
    assert_eq!(answer.data.len(), 70002);
    assert_eq!(answer.length, 4466);
}

#[test]
fn draw_picks_among_duplicates() {
    let records = store();
    let twin = question("twin", QType::A);
    let first = resolve_question(&records, &twin, 0).unwrap().unwrap();
    let second = resolve_question(&records, &twin, 1).unwrap().unwrap();
    assert_eq!(first.data, vec![10, 0, 0, 1]);
    assert_eq!(second.data, vec![10, 0, 0, 2]);
    assert_eq!(resolve_question(&records, &twin, 2).unwrap().unwrap().data, vec![10, 0, 0, 1]);
    assert_eq!(resolve_question(&records, &twin, 7).unwrap().unwrap().data, vec![10, 0, 0, 2]);
    assert_eq!(
        resolve_question(&records, &twin, 0xFFFF_FFFF).unwrap().unwrap().data,
        vec![10, 0, 0, 2]
    );
    assert_eq!(resolve_question(&records, &question("nobody", QType::A), 1), Ok(None));
}

#[test]
fn missing_draws_count_as_zero() {
    let records = store();
    let reply = respond_with(
        query(vec![question("twin", QType::A), question("twin", QType::A)]),
        &records,
        &[1],
    )
    .unwrap();
    assert_eq!(reply.answers[0].data, vec![10, 0, 0, 2]);
    assert_eq!(reply.answers[1].data, vec![10, 0, 0, 1]);
}

#[test]
fn duplicates_share_the_load() {
    let records = store();
    let trials: u32 = 2000;
    let mut first: u32 = 0;
    let mut second: u32 = 0;
    for _ in 0..trials {
        let reply = respond(query(vec![question("twin", QType::A)]), &records).unwrap();
        assert_eq!(reply.answers.len(), 1);
        assert_eq!(reply.header.flags.response_code, 0);
        if reply.answers[0].data == vec![10, 0, 0, 1] {
            first += 1;
        } else {
            assert_eq!(reply.answers[0].data, vec![10, 0, 0, 2]);
            second += 1;
        }
    }
    assert_eq!(first + second, trials);
    assert!(first > trials / 4 && second > trials / 4, "{} against {}", first, second);
}

#[test]
fn malformed_address_fails_the_resolution() {
    let records = store();
    assert_eq!(
        resolve_question(&records, &question("bad", QType::A), 0),
        Err(DnsError::MalformedAddress)
    );
    assert_eq!(
        respond_with(query(vec![question("bad", QType::A)]), &records, &[0]),
        Err(DnsError::MalformedAddress)
    );
    assert_eq!(
        respond_with(
            query(vec![question("x", QType::A), question("bad", QType::A)]),
            &records,
            &[0, 0]
        ),
        Err(DnsError::MalformedAddress)
    );
    assert_eq!(
        respond(query(vec![question("bad", QType::A)]), &records),
        Err(DnsError::MalformedAddress)
    );
    let reply = respond_with(query(vec![question("x", QType::A)]), &records, &[0]).unwrap();
    assert_eq!(reply.answers[0].data, vec![1, 2, 3, 4]);
}

#[test]
fn datagram_in_datagram_out() {
    let records = vec![DnsRecord::new("x", "IN", "A", "1.2.3.4")];
    let datagram = vec![
        0x12, 0x34, 0x01, 0x00, 0x00, 0x01, 0x00, 0x00, 0x00, 0x00, 0x00, 0x00, 1, b'x', 0, 0, 1,
        0, 1,
    ];
    let expected = vec![
        0x12, 0x34, 0x81, 0x00, 0x00, 0x01, 0x00, 0x01, 0x00, 0x00, 0x00, 0x00, 1, b'x', 0, 0, 1,
        0, 1, 1, b'x', 0, 0, 1, 0, 1, 0, 0, 0, 60, 0, 4, 1, 2, 3, 4,
    ];
    assert_eq!(handle_with(&datagram, &records, &[0]), Ok(expected.clone()));
    assert_eq!(handle(&datagram, &records), Ok(expected));
}

#[test]
fn datagram_for_an_absent_name() {
    let datagram = vec![
        0x00, 0x07, 0x00, 0x00, 0x00, 0x01, 0x00, 0x00, 0x00, 0x00, 0x00, 0x00, 1, b'q', 0, 0, 1,
        0, 1,
    ];
    let expected = vec![
        0x00, 0x07, 0x80, 0x03, 0x00, 0x01, 0x00, 0x00, 0x00, 0x00, 0x00, 0x00, 1, b'q', 0, 0, 1,
        0, 1,
    ];
    assert_eq!(handle_with(&datagram, &store(), &[0]), Ok(expected.clone()));
    assert_eq!(handle(&datagram, &store()), Ok(expected));
}

#[test]
fn datagram_that_does_not_decode_gets_no_reply() {
    assert_eq!(handle(&[0u8; 5], &store()), Err(DnsError::UnexpectedEndOfBuffer));
    assert_eq!(handle_with(&[], &store(), &[]), Err(DnsError::UnexpectedEndOfBuffer));
    let padded = vec![0u8; 512];
    let reply = handle(&padded, &store()).unwrap();
    assert_eq!(reply.len(), 12);
    assert_eq!(reply[2], 0x80);
}

#[test]
fn datagram_over_the_limit_is_refused() {
    let oversized = vec![0u8; 513];
    assert_eq!(handle(&oversized, &store()), Err(DnsError::DatagramTooLarge));
    assert_eq!(handle_with(&oversized, &store(), &[]), Err(DnsError::DatagramTooLarge));
    assert_eq!(dns_server::resolver::MAX_DATAGRAM, 512);
    assert!(DnsQuery::from_buffer(&oversized).is_ok());
}

#[test]
fn datagram_for_a_malformed_record_fails() {
    let datagram = vec![
        0x00, 0x07, 0x00, 0x00, 0x00, 0x01, 0x00, 0x00, 0x00, 0x00, 0x00, 0x00, 3, b'b', b'a',
        b'd', 0, 0, 1, 0, 1,
    ];
    assert_eq!(handle(&datagram, &store()), Err(DnsError::MalformedAddress));
}

#[test]
fn line_with_four_fields_is_a_record() {
    assert_eq!(
        parse_line("x IN A 1.2.3.4"),
        Ok(Some(DnsRecord::new("x", "IN", "A", "1.2.3.4")))
    );
    assert_eq!(
        parse_line("  alias\tIN   CNAME  a.b.c  "),
        Ok(Some(DnsRecord::new("alias", "IN", "CNAME", "a.b.c")))
    );
}

#[test]
fn line_without_four_fields_is_skipped() {
    assert_eq!(parse_line(""), Ok(None));
    assert_eq!(parse_line("   "), Ok(None));
    assert_eq!(parse_line("x IN A"), Ok(None));
    assert_eq!(parse_line("x IN A 1.2.3.4 extra"), Ok(None));
    assert_eq!(parse_line("x CH MX"), Ok(None));
}

#[test]
fn line_with_an_unknown_class_or_type_is_refused() {
    assert_eq!(parse_line("x CH A 1.2.3.4"), Err(DnsError::RecordSourceError));
    assert_eq!(parse_line("x IN MX 1.2.3.4"), Err(DnsError::RecordSourceError));
    assert_eq!(parse_line("x in a 1.2.3.4"), Err(DnsError::RecordSourceError));
}

#[test]
fn fields_make_a_record() {
    let fields: Vec<String> =
        vec!["x".to_string(), "IN".to_string(), "A".to_string(), "1.2.3.4".to_string()];
    assert_eq!(record_from_fields(&fields), Ok(Some(DnsRecord::new("x", "IN", "A", "1.2.3.4"))));
    assert_eq!(record_from_fields(&fields[..3].to_vec()), Ok(None));
    assert_eq!(record_from_fields(&vec![]), Ok(None));
    let unknown: Vec<String> =
        vec!["x".to_string(), "IN".to_string(), "TXT".to_string(), "v".to_string()];
    assert_eq!(record_from_fields(&unknown), Err(DnsError::RecordSourceError));
}

#[test]
fn lines_load_in_order() {
    let lines: Vec<String> = vec![
        "x IN A 1.2.3.4".to_string(),
        "".to_string(),
        "# comment".to_string(),
        "twin IN A 10.0.0.1".to_string(),
        "only three fields".to_string(),
        "alias IN CNAME a.b.c".to_string(),
    ];
    assert_eq!(
        load_records(&lines),
        Ok(vec![
            DnsRecord::new("x", "IN", "A", "1.2.3.4"),
            DnsRecord::new("twin", "IN", "A", "10.0.0.1"),
            DnsRecord::new("alias", "IN", "CNAME", "a.b.c"),
        ])
    );
    assert_eq!(load_records(&vec![]), Ok(vec![]));
}

#[test]
fn lines_with_a_refused_line_do_not_load() {
    let lines: Vec<String> = vec![
        "x IN A 1.2.3.4".to_string(),
        "y IN AAAA ::1".to_string(),
        "z IN A 1.1.1.1".to_string(),
    ];
    assert_eq!(load_records(&lines), Err(DnsError::RecordSourceError));
}
