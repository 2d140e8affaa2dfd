use bytebuffer::{ByteBuffer, ByteReader, Endian};
use dns_server::bits::write_bytes;
use dns_server::name::{encode_name, read_name, write_name};
use dns_server::{
    none_if_zero, Answer, DnsError, DnsHeader, DnsQuery, Flags, QClass, QType, Question,
};

fn flags_of(bits: u16) -> Flags {
    Flags {
        qr: bits & 0x8000 != 0,
        opcode: ((bits >> 11) & 0x0F) as u8,
        authorihative_answer: bits & 0x0400 != 0,
        truncate: bits & 0x0200 != 0,
        recursion_desired: bits & 0x0100 != 0,
        recursion_available: bits & 0x0080 != 0,
        response_code: (bits & 0x000F) as u8,
    }
}

fn flags_bytes(flags: &Flags) -> Vec<u8> {
    let mut writer = ByteBuffer::new();
    flags.write_buf(&mut writer);
    writer.into_vec()
}

fn header_bytes(header: &DnsHeader) -> Vec<u8> {
    let mut writer = ByteBuffer::new();
    header.write_buf(&mut writer);
    writer.into_vec()
}

fn sample_query() -> Vec<u8> {
    vec![
        0x12, 0x34, 0x01, 0x00, 0x00, 0x01, 0x00, 0x00, 0x00, 0x00, 0x00, 0x00, 1, b'x', 0, 0, 1,
        0, 1,
    ]
}

#[test]
fn flags_word_has_the_fixed_bit_order() {
    let flags = Flags {
        qr: true,
        opcode: 2,
        authorihative_answer: false,
        truncate: true,
        recursion_desired: true,
        recursion_available: true,
        response_code: 3,
    };
    assert_eq!(flags_bytes(&flags), vec![0x93u8, 0x83u8]);
    let bytes = flags_bytes(&flags);
    let mut reader = ByteReader::from_bytes(&bytes);
    assert_eq!(Flags::read_buf(&mut reader), Ok(flags));
}

#[test]
fn flags_all_clear_round_trip() {
    let flags = Flags::new();
    assert_eq!(flags, flags_of(0));
    let bytes = flags_bytes(&flags);
    assert_eq!(bytes, vec![0u8, 0u8]);
    let mut reader = ByteReader::from_bytes(&bytes);
    assert_eq!(Flags::read_buf(&mut reader), Ok(flags));
}

#[test]
fn flags_all_set_round_trip() {
    let flags = flags_of(0xFF8F);
    assert_eq!(flags.opcode, 15);
    assert_eq!(flags.response_code, 15);
    let bytes = flags_bytes(&flags);
    assert_eq!(bytes, vec![0xFFu8, 0x8Fu8]);
    let mut reader = ByteReader::from_bytes(&bytes);
    assert_eq!(Flags::read_buf(&mut reader), Ok(flags));
}

#[test]
fn flags_each_single_bit_round_trip() {
    let bits: [u16; 13] = [
        0x8000, 0x4000, 0x2000, 0x1000, 0x0800, 0x0400, 0x0200, 0x0100, 0x0080, 0x0008, 0x0004,
        0x0002, 0x0001,
    ];
    for bit in bits {
        let flags = flags_of(bit);
        let bytes = flags_bytes(&flags);
        assert_eq!(bytes, vec![(bit >> 8) as u8, (bit & 0xFF) as u8]);
        let mut reader = ByteReader::from_bytes(&bytes);
        assert_eq!(Flags::read_buf(&mut reader), Ok(flags));
    }
}

#[test]
fn flags_reserved_bits_are_read_and_dropped() {
    let bytes = vec![0x00u8, 0x70u8];
    let mut reader = ByteReader::from_bytes(&bytes);
    assert_eq!(Flags::read_buf(&mut reader), Ok(Flags::new()));
}

#[test]
fn flags_wide_fields_keep_their_low_four_bits() {
    let mut flags = Flags::new();
    flags.opcode = 0x1F;
    flags.response_code = 0x35;
    assert_eq!(flags_bytes(&flags), vec![0x78u8, 0x05u8]);
}

#[test]
fn flags_off_a_byte_boundary() {
    let flags = flags_of(0xFF8F);
    let mut writer = ByteBuffer::new();
    writer.write_bit(true);
    flags.write_buf(&mut writer);
    let bytes = writer.into_vec();
    assert_eq!(bytes, vec![0xFFu8, 0xC7, 0x80]);
    let mut reader = ByteReader::from_bytes(&bytes);
    assert!(reader.read_bit().unwrap());
    assert_eq!(Flags::read_buf(&mut reader), Ok(flags));
    assert_eq!(reader.read_bits(7).unwrap(), 0);

    let sparse = flags_of(0x0903);
    let mut writer = ByteBuffer::new();
    writer.write_bits(0, 5);
    sparse.write_buf(&mut writer);
    let bytes = writer.into_vec();
    assert_eq!(bytes, vec![0x00u8, 0x48, 0x18]);
    let mut reader = ByteReader::from_bytes(&bytes);
    assert_eq!(reader.read_bits(5).unwrap(), 0);
    assert_eq!(Flags::read_buf(&mut reader), Ok(sparse));
    let mut reader = ByteReader::from_bytes(&bytes[..2]);
    assert_eq!(reader.read_bits(5).unwrap(), 0);
    assert_eq!(Flags::read_buf(&mut reader), Err(DnsError::UnexpectedEndOfBuffer));
}

#[test]
fn flags_need_two_bytes() {
    let bytes = vec![0x80u8];
    let mut reader = ByteReader::from_bytes(&bytes);
    assert_eq!(Flags::read_buf(&mut reader), Err(DnsError::UnexpectedEndOfBuffer));
    let empty: Vec<u8> = vec![];
    let mut reader = ByteReader::from_bytes(&empty);
    assert_eq!(Flags::read_buf(&mut reader), Err(DnsError::UnexpectedEndOfBuffer));
}

#[test]
fn header_is_twelve_bytes_in_fixed_order() {
    let header = DnsHeader {
        id: 0x1234,
        flags: flags_of(0x8583),
        questions: 1,
        answers: 2,
        authorities: 3,
        additional: 0x0405,
    };
    assert_eq!(
        header_bytes(&header),
        vec![0x12, 0x34, 0x85, 0x83, 0x00, 0x01, 0x00, 0x02, 0x00, 0x03, 0x04, 0x05]
    );
}

#[test]
fn header_round_trip() {
    for bits in [0u16, 0xFF8F, 0x8000, 0x0100, 0x0003, 0x7800] {
        let header = DnsHeader {
            id: 0xBEEF,
            flags: flags_of(bits),
            questions: 0xFFFF,
            answers: 0,
            authorities: 7,
            additional: 256,
        };
        let bytes = header_bytes(&header);
        let mut reader = ByteReader::from_bytes(&bytes);
        assert_eq!(DnsHeader::read_buf(&mut reader), Ok(header));
    }
}

#[test]
fn header_new_is_all_zero() {
    let header = DnsHeader::new();
    assert_eq!(header_bytes(&header), vec![0u8; 12]);
    let bytes = vec![0u8; 12];
    let mut reader = ByteReader::from_bytes(&bytes);
    assert_eq!(DnsHeader::read_buf(&mut reader), Ok(header));
}

#[test]
fn header_cut_short_is_refused() {
    let bytes = vec![0u8; 11];
    let mut reader = ByteReader::from_bytes(&bytes);
    assert_eq!(DnsHeader::read_buf(&mut reader), Err(DnsError::UnexpectedEndOfBuffer));
}

#[test]
fn header_is_appended_to_what_the_writer_holds() {
    let mut writer = ByteBuffer::new();
    writer.write_u8(0xAA);
    DnsHeader::new().write_buf(&mut writer);
    let bytes = writer.into_vec();
    assert_eq!(bytes.len(), 13);
    assert_eq!(bytes[0], 0xAA);
}

#[test]
fn name_encodes_as_labels() {
    assert_eq!(encode_name(b"a.b.c"), vec![1, b'a', 1, b'b', 1, b'c', 0]);
    assert_eq!(encode_name(b"example.com"), {
        let mut wire = vec![7u8];
        wire.extend_from_slice(b"example");
        wire.push(3);
        wire.extend_from_slice(b"com");
        wire.push(0);
        wire
    });
}

#[test]
fn name_decodes_from_labels() {
    let bytes = vec![1, b'a', 1, b'b', 1, b'c', 0];
    let mut reader = ByteReader::from_bytes(&bytes);
    assert_eq!(read_name(&mut reader), Ok("a.b.c".to_string()));
    assert_eq!(reader.get_rpos(), 7);
}

#[test]
fn name_round_trip_through_a_writer() {
    let mut writer = ByteBuffer::new();
    write_name(&mut writer, "www.example.org");
    let bytes = writer.into_vec();
    assert_eq!(bytes.len(), "www.example.org".len() + 2);
    let mut reader = ByteReader::from_bytes(&bytes);
    assert_eq!(read_name(&mut reader), Ok("www.example.org".to_string()));
}

#[test]
fn name_edge_cases_encode_empty_labels() {
    assert_eq!(encode_name(b""), vec![0, 0]);
    assert_eq!(encode_name(b"."), vec![0, 0, 0]);
    assert_eq!(encode_name(b"a."), vec![1, b'a', 0, 0]);
    assert_eq!(encode_name(b"a..b"), vec![1, b'a', 0, 1, b'b', 0]);
}

#[test]
fn name_label_length_is_cut_to_a_byte() {
    let label = vec![b'x'; 300];
    let wire = encode_name(&label);
    assert_eq!(wire.len(), 302);
    assert_eq!(wire[0], 44);
    assert_eq!(wire[301], 0);
}

#[test]
fn name_of_the_root_is_empty() {
    let bytes = vec![0u8];
    let mut reader = ByteReader::from_bytes(&bytes);
    assert_eq!(read_name(&mut reader), Ok(String::new()));
}

#[test]
fn name_text_beyond_ascii_is_written_as_its_bytes() {
    let name = "b\u{fc}cher.de";
    let mut wire = vec![7u8];
    wire.extend_from_slice("b\u{fc}cher".as_bytes());
    wire.push(2);
    wire.extend_from_slice(b"de");
    wire.push(0);
    assert_eq!(encode_name(name.as_bytes()), wire);
    let mut reader = ByteReader::from_bytes(&wire);
    assert_eq!(read_name(&mut reader), Ok(name.to_string()));
}

#[test]
fn name_without_its_closing_byte_is_refused() {
    let bytes = vec![1, b'a', 1, b'b'];
    let mut reader = ByteReader::from_bytes(&bytes);
    assert_eq!(read_name(&mut reader), Err(DnsError::UnexpectedEndOfBuffer));
}

#[test]
fn name_with_a_label_cut_short_is_refused() {
    let bytes = vec![5, b'a', b'b'];
    let mut reader = ByteReader::from_bytes(&bytes);
    assert_eq!(read_name(&mut reader), Err(DnsError::UnexpectedEndOfBuffer));
}

#[test]
fn name_with_a_label_that_is_not_text_is_refused() {
    let bytes = vec![2, 0xC3, 0x28, 0];
    let mut reader = ByteReader::from_bytes(&bytes);
    assert_eq!(read_name(&mut reader), Err(DnsError::InvalidLabelEncoding));
    let bytes = vec![1, 0xFF, 0];
    let mut reader = ByteReader::from_bytes(&bytes);
    assert_eq!(read_name(&mut reader), Err(DnsError::InvalidLabelEncoding));
}

#[test]
fn name_pointer_is_read_as_a_length() {
    let mut bytes = vec![0xC0u8];
    bytes.extend_from_slice(&[b'a'; 192]);
    bytes.push(0);
    let mut reader = ByteReader::from_bytes(&bytes);
    assert_eq!(read_name(&mut reader), Ok("a".repeat(192)));
    let short = vec![0xC0u8, 0x0C];
    let mut reader = ByteReader::from_bytes(&short);
    assert_eq!(read_name(&mut reader), Err(DnsError::UnexpectedEndOfBuffer));
}

#[test]
fn none_if_zero_tells_zero_apart() {
    assert_eq!(none_if_zero(0), None);
    assert_eq!(none_if_zero(1), Some(1));
    assert_eq!(none_if_zero(255), Some(255));
}

#[test]
fn write_bytes_appends_each_byte() {
    let mut writer = ByteBuffer::new();
    write_bytes(&mut writer, &[1, 2, 3]);
    write_bytes(&mut writer, &[]);
    write_bytes(&mut writer, &[4]);
    assert_eq!(writer.into_vec(), vec![1, 2, 3, 4]);
}

#[test]
fn type_codes_decode_strictly() {
    assert_eq!(QType::from_u16(1), Ok(QType::A));
    assert_eq!(QType::from_u16(5), Ok(QType::CNAME));
    assert_eq!(QType::from_u16(0), Err(DnsError::UnknownType));
    assert_eq!(QType::from_u16(2), Err(DnsError::UnknownType));
    assert_eq!(QType::from_u16(28), Err(DnsError::UnknownType));
    assert_eq!(QType::from_u16(0xFFFF), Err(DnsError::UnknownType));
}

#[test]
fn type_codes_encode_totally() {
    assert_eq!(QType::A.to_u16(), 1);
    assert_eq!(QType::CNAME.to_u16(), 5);
    assert_eq!(QType::Unknown(28).to_u16(), 28);
    assert_eq!(QType::Unknown(1).to_u16(), 1);
}

#[test]
fn class_codes_decode_strictly() {
    assert_eq!(QClass::from_u16(1), Ok(QClass::IN));
    assert_eq!(QClass::from_u16(0), Err(DnsError::UnknownClass));
    assert_eq!(QClass::from_u16(3), Err(DnsError::UnknownClass));
    assert_eq!(QClass::from_u16(255), Err(DnsError::UnknownClass));
}

#[test]
fn class_codes_encode_totally() {
    assert_eq!(QClass::IN.to_u16(), 1);
    assert_eq!(QClass::Unknown(3).to_u16(), 3);
}

#[test]
fn type_and_class_names() {
    assert_eq!(QType::from_name("A"), Some(QType::A));
    assert_eq!(QType::from_name("CNAME"), Some(QType::CNAME));
    assert_eq!(QType::from_name("a"), None);
    assert_eq!(QType::from_name("AAAA"), None);
    assert_eq!(QType::from_name(""), None);
    assert_eq!(QClass::from_name("IN"), Some(QClass::IN));
    assert_eq!(QClass::from_name("CH"), None);
    assert_eq!("A".parse::<QType>(), Ok(QType::A));
    assert_eq!("CNAME".parse::<QType>(), Ok(QType::CNAME));
    assert_eq!("MX".parse::<QType>(), Err(()));
    assert_eq!("IN".parse::<QClass>(), Ok(QClass::IN));
    assert_eq!("in".parse::<QClass>(), Err(()));
}

#[test]
fn question_on_the_wire() {
    let question =
        Question { qname: "a.b".to_string(), qtype: QType::CNAME, qclass: QClass::IN };
    let mut writer = ByteBuffer::new();
    question.write_buf(&mut writer);
    let bytes = writer.into_vec();
    assert_eq!(bytes, vec![1, b'a', 1, b'b', 0, 0, 5, 0, 1]);
    let mut reader = ByteReader::from_bytes(&bytes);
    assert_eq!(Question::read_buf(&mut reader), Ok(question));
}

#[test]
fn question_new_is_empty_and_unknown() {
    let question = Question::new();
    assert_eq!(question.qname, "");
    assert_eq!(question.qtype, QType::Unknown(0));
    assert_eq!(question.qclass, QClass::Unknown(0));
}

#[test]
fn question_with_unknown_codes_encodes_but_does_not_decode() {
    let question =
        Question { qname: "x".to_string(), qtype: QType::Unknown(28), qclass: QClass::IN };
    let mut writer = ByteBuffer::new();
    question.write_buf(&mut writer);
    let bytes = writer.into_vec();
    assert_eq!(bytes, vec![1, b'x', 0, 0, 28, 0, 1]);
    let mut reader = ByteReader::from_bytes(&bytes);
    assert_eq!(Question::read_buf(&mut reader), Err(DnsError::UnknownType));

    let question =
        Question { qname: "x".to_string(), qtype: QType::A, qclass: QClass::Unknown(3) };
    let mut writer = ByteBuffer::new();
    question.write_buf(&mut writer);
    let bytes = writer.into_vec();
    assert_eq!(bytes, vec![1, b'x', 0, 0, 1, 0, 3]);
    let mut reader = ByteReader::from_bytes(&bytes);
    assert_eq!(Question::read_buf(&mut reader), Err(DnsError::UnknownClass));
}

#[test]
fn question_type_is_judged_before_the_class_is_read() {
    let bytes = vec![1, b'x', 0, 0, 9];
    let mut reader = ByteReader::from_bytes(&bytes);
    assert_eq!(Question::read_buf(&mut reader), Err(DnsError::UnknownType));
    let bytes = vec![1, b'x', 0, 0, 1];
    let mut reader = ByteReader::from_bytes(&bytes);
    assert_eq!(Question::read_buf(&mut reader), Err(DnsError::UnexpectedEndOfBuffer));
    let bytes = vec![1, b'x', 0, 0];
    let mut reader = ByteReader::from_bytes(&bytes);
    assert_eq!(Question::read_buf(&mut reader), Err(DnsError::UnexpectedEndOfBuffer));
}

#[test]
fn answer_on_the_wire() {
    let answer = Answer {
        name: "x".to_string(),
        qtype: QType::A,
        qclass: QClass::IN,
        ttl: 60,
        length: 4,
        data: vec![1, 2, 3, 4],
    };
    let mut writer = ByteBuffer::new();
    answer.write_buf(&mut writer);
    assert_eq!(
        writer.into_vec(),
        vec![1, b'x', 0, 0, 1, 0, 1, 0, 0, 0, 60, 0, 4, 1, 2, 3, 4]
    );
}

#[test]
fn answer_ttl_and_length_are_big_endian() {
    let answer = Answer {
        name: String::new(),
        qtype: QType::Unknown(0x0102),
        qclass: QClass::Unknown(0x0304),
        ttl: 0x0A0B0C0D,
        length: 0x0E0F,
        data: vec![],
    };
    let mut writer = ByteBuffer::new();
    answer.write_buf(&mut writer);
    assert_eq!(
        writer.into_vec(),
        vec![0, 0, 1, 2, 3, 4, 0x0A, 0x0B, 0x0C, 0x0D, 0x0E, 0x0F]
    );
}

#[test]
fn message_new_is_empty() {
    let message = DnsQuery::new();
    assert_eq!(message.header, DnsHeader::new());
    assert!(message.questions.is_empty());
    assert!(message.answers.is_empty());
    assert_eq!(message.to_bytes(), vec![0u8; 12]);
}

#[test]
fn message_decodes_header_and_questions() {
    let message = DnsQuery::from_buffer(&sample_query()).unwrap();
    assert_eq!(message.header.id, 0x1234);
    assert!(message.header.flags.recursion_desired);
    assert!(!message.header.flags.qr);
    assert_eq!(message.header.questions, 1);
    assert_eq!(
        message.questions,
        vec![Question { qname: "x".to_string(), qtype: QType::A, qclass: QClass::IN }]
    );
    assert!(message.answers.is_empty());
}

#[test]
fn message_round_trip() {
    let bytes = sample_query();
    let message = DnsQuery::from_buffer(&bytes).unwrap();
    assert_eq!(message.to_bytes(), bytes);
    let mut writer = ByteBuffer::new();
    message.write_buf(&mut writer);
    assert_eq!(writer.into_vec(), bytes);
}

#[test]
fn message_stops_after_the_questions() {
    let mut bytes = sample_query();
    bytes[7] = 2;
    bytes[9] = 1;
    bytes[11] = 1;
    bytes.extend_from_slice(&[0xFF; 20]);
    let message = DnsQuery::from_buffer(&bytes).unwrap();
    assert_eq!(message.header.answers, 2);
    assert_eq!(message.header.authorities, 1);
    assert_eq!(message.header.additional, 1);
    assert_eq!(message.questions.len(), 1);
    assert!(message.answers.is_empty());
}

#[test]
fn message_with_two_questions() {
    let mut bytes = sample_query();
    bytes[5] = 2;
    bytes.extend_from_slice(&[1, b'y', 2, b'z', b'z', 0, 0, 5, 0, 1]);
    let message = DnsQuery::from_buffer(&bytes).unwrap();
    assert_eq!(message.questions.len(), 2);
    assert_eq!(message.questions[1].qname, "y.zz");
    assert_eq!(message.questions[1].qtype, QType::CNAME);
    assert_eq!(message.to_bytes(), bytes);
}

#[test]
fn message_that_counts_more_questions_than_it_holds_is_refused() {
    let mut bytes = sample_query();
    bytes[5] = 2;
    assert_eq!(DnsQuery::from_buffer(&bytes), Err(DnsError::UnexpectedEndOfBuffer));
}

#[test]
fn message_cut_short_is_refused() {
    let bytes = sample_query();
    for len in 0..bytes.len() {
        assert_eq!(
            DnsQuery::from_buffer(&bytes[..len]),
            Err(DnsError::UnexpectedEndOfBuffer)
        );
    }
}

#[test]
fn message_with_an_unknown_type_or_class_is_refused() {
    let mut bytes = sample_query();
    bytes[16] = 28;
    assert_eq!(DnsQuery::from_buffer(&bytes), Err(DnsError::UnknownType));
    let mut bytes = sample_query();
    bytes[18] = 3;
    assert_eq!(DnsQuery::from_buffer(&bytes), Err(DnsError::UnknownClass));
}

#[test]
fn message_with_a_label_that_is_not_text_is_refused() {
    let mut bytes = sample_query();
    bytes[13] = 0x80;
    assert_eq!(DnsQuery::from_buffer(&bytes), Err(DnsError::InvalidLabelEncoding));
}

#[test]
fn message_writes_no_authority_or_additional_records() {
    let mut message = DnsQuery::from_buffer(&sample_query()).unwrap();
    message.header.authorities = 4;
    message.header.additional = 5;
    let bytes = message.to_bytes();
    assert_eq!(bytes.len(), sample_query().len());
    assert_eq!(&bytes[8..12], &[0, 4, 0, 5]);
}

#[test]
fn message_with_answers_on_the_wire() {
    let mut message = DnsQuery::from_buffer(&sample_query()).unwrap();
    message.answers.push(Answer {
        name: "x".to_string(),
        qtype: QType::A,
        qclass: QClass::IN,
        ttl: 60,
        length: 4,
        data: vec![1, 2, 3, 4],
    });
    message.header.answers = 1;
    let mut expected = sample_query();
    expected[7] = 1;
    expected.extend_from_slice(&[1, b'x', 0, 0, 1, 0, 1, 0, 0, 0, 60, 0, 4, 1, 2, 3, 4]);
    assert_eq!(message.to_bytes(), expected);
}

#[test]
fn reader_in_network_order_is_what_the_codec_reads() {
    let bytes = vec![0x01u8, 0x02];
    let mut reader = ByteReader::from_bytes(&bytes);
    assert_eq!(reader.endian(), Endian::BigEndian);
    assert_eq!(reader.read_u16().unwrap(), 0x0102);
    let writer = ByteBuffer::new();
    assert_eq!(writer.endian(), Endian::BigEndian);
}

#[test]
fn error_messages_differ() {
    let all = [
        DnsError::UnexpectedEndOfBuffer,
        DnsError::UnknownType,
        DnsError::UnknownClass,
        DnsError::InvalidLabelEncoding,
        DnsError::MalformedAddress,
        DnsError::RecordSourceError,
        DnsError::DatagramTooLarge,
    ];
    for (i, left) in all.iter().enumerate() {
        assert!(!left.message().is_empty());
        for right in all.iter().skip(i + 1) {
            assert_ne!(left.message(), right.message());
        }
    }
    assert_eq!(DnsError::MalformedAddress.message(), "malformed address");
}
