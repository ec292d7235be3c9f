use dns_resolver::parser::packet;
use dns_resolver::resolver::mk_query;
use dns_resolver::types::{
    DnsError, DnsHeader, DnsPacket, DnsQuestion, DnsRecord, Ipv4Addr, Ipv6Addr, QueryType,
    ResponseCode,
};

fn google_answer() -> [u8; 54] {
    [
        0xa8, 0x4f, // identifier
        0x01, 0x20, // flags
        0x00, 0x01, // question count
        0x00, 0x01, // answer count
        0x00, 0x00, // authority count
        0x00, 0x00, // additional count
        0x06, 0x67, 0x6f, 0x6f, 0x67, 0x6c, 0x65, 0x03, 0x63, 0x6f, 0x6d, 0x00, // google.com
        0x00, 0x01, // query type
        0x00, 0x01, // query question
        // repeated name instead of a jump
        0x06, 0x67, 0x6f, 0x6f, 0x67, 0x6c, 0x65, 0x03, 0x63, 0x6f, 0x6d, 0x00, // google.com
        0x00, 0x01, // query type
        0x00, 0x01, // query class
        0x00, 0x00, 0x01, 0x25, // ttl
        0x00, 0x04, // len
        0xd8, 0x3a, 0xd3, 0x8e, // ip
    ]
}

fn google_header_answer() -> DnsHeader {
    DnsHeader {
        id: 43087,
        response: false,
        opcode: 0,
        authoritative_answer: false,
        truncated_message: false,
        recursion_desired: true,
        recursion_available: false,
        z: false,
        authed_data: true,
        checking_disabled: false,
        rescode: ResponseCode::NOERROR,
        questions: 1,
        answers: 1,
        authoritative_entries: 0,
        resource_entries: 0,
    }
}

#[test]
fn writing_works() {
    let header = google_header_answer();
    let question = DnsQuestion {
        name: "google.com".to_string(),
        qtype: QueryType::A,
    };
    let record = DnsRecord::A {
        domain: "google.com".to_string(),
        addr: Ipv4Addr::new(216, 58, 211, 142),
        ttl: 293,
    };

    let dns_packet = DnsPacket {
        header,
        questions: vec![question],
        answers: vec![record],
        authorities: vec![],
        resources: vec![],
    };

    let mut vec = vec![0u8; 512];
    let size = dns_resolver::writer::write(&mut vec, &dns_packet).unwrap();

    assert_eq!(&vec[..size], google_answer());
}

#[test]
fn query_encoding_works() {
    // Header id 818, a query with recursion desired and one question
    // for google.com/A: 28 octets, the fixed header prefix, and the
    // uncompressed question.
    let query = mk_query(818, "google.com", QueryType::A);
    let mut buf = vec![0u8; 512];
    let size = dns_resolver::writer::write(&mut buf, &query).unwrap();

    assert_eq!(size, 28);
    assert_eq!(
        &buf[..12],
        &[0x03, 0x32, 0x01, 0x00, 0x00, 0x01, 0x00, 0x00, 0x00, 0x00, 0x00, 0x00]
    );
    assert_eq!(
        &buf[12..28],
        &[0x06, 0x67, 0x6f, 0x6f, 0x67, 0x6c, 0x65, 0x03, 0x63, 0x6f, 0x6d, 0x00, 0x00, 0x01,
            0x00, 0x01]
    );
}

#[test]
fn flags_word_matches_wire_layout() {
    let h = google_header_answer();
    assert_eq!(h.flags(), 0x0120);
}

#[test]
fn oversized_label_is_rejected_on_encode() {
    let long_label = "a".repeat(64);
    let query = mk_query(1, &long_label, QueryType::A);
    let mut buf = vec![0u8; 512];
    assert_eq!(dns_resolver::writer::write(&mut buf, &query), Err(DnsError::BufferOverflow));
}

#[test]
fn empty_label_is_rejected_on_encode() {
    let query = mk_query(1, "a..b", QueryType::A);
    let mut buf = vec![0u8; 512];
    assert_eq!(dns_resolver::writer::write(&mut buf, &query), Err(DnsError::FormatError));
}

#[test]
fn overlong_name_is_rejected_on_encode() {
    // Four 63-octet labels encode to 259 octets, past the name bound.
    let label = "a".repeat(63);
    let name = format!("{}.{}.{}.{}", label, label, label, label);
    let query = mk_query(1, &name, QueryType::A);
    let mut buf = vec![0u8; 512];
    assert_eq!(dns_resolver::writer::write(&mut buf, &query), Err(DnsError::BufferOverflow));
}

#[test]
fn oversized_message_is_rejected_on_encode() {
    // Twenty answers of about 40 octets each cannot fit 512 octets.
    let record = DnsRecord::A {
        domain: "a-rather-long-name.example.com".to_string(),
        addr: Ipv4Addr::new(10, 0, 0, 1),
        ttl: 60,
    };
    let mut query = mk_query(7, "example.com", QueryType::A);
    query.answers = vec![record; 20];
    let mut buf = vec![0u8; 512];
    assert_eq!(dns_resolver::writer::write(&mut buf, &query), Err(DnsError::BufferOverflow));
}

#[test]
fn round_trip_preserves_message() {
    // A message with every record kind; the unknown record is dropped
    // on encode and the counts follow the sections.
    let header = DnsHeader {
        id: 4660,
        response: true,
        opcode: 0,
        authoritative_answer: true,
        truncated_message: false,
        recursion_desired: true,
        recursion_available: true,
        z: false,
        authed_data: false,
        checking_disabled: true,
        rescode: ResponseCode::NOERROR,
        questions: 1,
        answers: 3,
        authoritative_entries: 1,
        resource_entries: 1,
    };
    let original = DnsPacket {
        header,
        questions: vec![DnsQuestion {
            name: "mail.example.com".to_string(),
            qtype: QueryType::MX,
        }],
        answers: vec![
            DnsRecord::MX {
                domain: "mail.example.com".to_string(),
                priority: 10,
                host: "mx1.example.com".to_string(),
                ttl: 3600,
            },
            DnsRecord::CNAME {
                domain: "www.example.com".to_string(),
                host: "example.com".to_string(),
                ttl: 60,
            },
            DnsRecord::UNKNOWN {
                domain: "odd.example.com".to_string(),
                qtype: 99,
                data_len: 7,
                ttl: 1,
            },
        ],
        authorities: vec![DnsRecord::NS {
            domain: "example.com".to_string(),
            host: "ns.example.com".to_string(),
            ttl: 86400,
        }],
        resources: vec![DnsRecord::AAAA {
            domain: "ns.example.com".to_string(),
            addr: Ipv6Addr::new(0x2001, 0xdb8, 0, 0, 0, 0, 0, 1),
            ttl: 86400,
        }],
    };

    let mut buf = vec![0u8; 512];
    let size = dns_resolver::writer::write(&mut buf, &original).unwrap();
    let decoded = packet(&buf[..size]).unwrap();

    // The unknown answer is gone and the counts follow the sections.
    let mut expected = original.clone();
    expected.answers.truncate(2);
    expected.header.answers = 2;
    assert_eq!(decoded, expected);
}

#[test]
fn root_name_encodes_as_terminator() {
    let query = mk_query(5, "", QueryType::NS);
    let mut buf = vec![0u8; 512];
    let size = dns_resolver::writer::write(&mut buf, &query).unwrap();
    assert_eq!(size, 17);
    assert_eq!(buf[12], 0x00);
    let decoded = packet(&buf[..size]).unwrap();
    assert_eq!(decoded.questions[0].name, "");
}

#[test]
fn pointer_layout_does_not_change_decoding() {
    // The same logical message in its pointer-compressed form: the
    // answer's name is a pointer back to the question's.
    let compressed: [u8; 44] = [
        0xa8, 0x4f, 0x01, 0x20, 0x00, 0x01, 0x00, 0x01, 0x00, 0x00, 0x00, 0x00, // header
        0x06, 0x67, 0x6f, 0x6f, 0x67, 0x6c, 0x65, 0x03, 0x63, 0x6f, 0x6d, 0x00, // google.com
        0x00, 0x01, 0x00, 0x01, // qtype, qclass
        0xc0, 0x0c, // name (jump point)
        0x00, 0x01, 0x00, 0x01, // type, class
        0x00, 0x00, 0x01, 0x25, // ttl
        0x00, 0x04, // len
        0xd8, 0x3a, 0xd3, 0x8e, // ip
    ];
    let decoded = packet(&compressed[..]).unwrap();

    // Re-encoding emits no pointers, yet the octets decode to the
    // same message.
    let mut buf = vec![0u8; 512];
    let size = dns_resolver::writer::write(&mut buf, &decoded).unwrap();
    assert_eq!(&buf[..size], &google_answer()[..]);
    assert_eq!(packet(&buf[..size]).unwrap(), decoded);
}
