use dns_resolver::name::{domain_fragment, domain_name};
use dns_resolver::parser::{answer, header, packet, question};
use dns_resolver::types::{
    DnsError, DnsHeader, DnsPacket, DnsQuestion, DnsRecord, Ipv4Addr, Ipv6Addr, QueryType,
    ResponseCode,
};

fn google_query() -> [u8; 28] {
    [
        0xa8, 0x4f, // identifier
        0x01, 0x20, // flags
        0x00, 0x01, // question count
        0x00, 0x00, // answer count
        0x00, 0x00, // authority count
        0x00, 0x00, // additional count
        0x06, 0x67, 0x6f, 0x6f, 0x67, 0x6c, 0x65, 0x03, 0x63, 0x6f, 0x6d, 0x00, // google.com
        0x00, 0x01, // query type
        0x00, 0x01, // query question
    ]
}

fn google_answer() -> [u8; 44] {
    [
        0xa8, 0x4f, // identifier
        0x01, 0x20, // flags
        0x00, 0x01, // question count
        0x00, 0x01, // answer count
        0x00, 0x00, // authority count
        0x00, 0x00, // additional count
        0x06, 0x67, 0x6f, 0x6f, 0x67, 0x6c, 0x65, 0x03, 0x63, 0x6f, 0x6d, 0x00, // google.com
        0x00, 0x01, // query type
        0x00, 0x01, // query question
        0xc0, 0x0c, // name (jump point)
        0x00, 0x01, // query type
        0x00, 0x01, // query class
        0x00, 0x00, 0x01, 0x25, // ttl
        0x00, 0x04, // len
        0xd8, 0x3a, 0xd3, 0x8e, // ip
    ]
}

fn google_header_question() -> DnsHeader {
    DnsHeader {
        id: 43087,
        response: false,
        opcode: 0,
        authoritative_answer: false,
        truncated_message: false,
        recursion_desired: true,
        recursion_available: false,
        z: false,
        authed_data: true,
        checking_disabled: false,
        rescode: ResponseCode::NOERROR,
        questions: 1,
        answers: 0,
        authoritative_entries: 0,
        resource_entries: 0,
    }
}

fn google_header_answer() -> DnsHeader {
    DnsHeader {
        answers: 1,
        ..google_header_question()
    }
}

#[test]
fn dns_header_parsing_works() {
    let (result, _) = header(&google_query()[..], 0).unwrap();

    assert_eq!(result, google_header_question());
}

#[test]
fn single_fragment_parsing_works() {
    let (result, _) = domain_fragment(&google_query()[..], 12).unwrap();

    assert_eq!(result, "google");
}

#[test]
fn domain_name_parsing_works() {
    let (result, _) = domain_name(&google_query()[..], 12).unwrap();

    assert_eq!(result, "google.com");
}

#[test]
fn dns_question_parsing_works() {
    let expected_question = DnsQuestion {
        name: "google.com".to_string(),
        qtype: QueryType::A,
    };
    let (result, _) = question(&google_query()[..], 12).unwrap();

    assert_eq!(result, expected_question);
}

#[test]
fn dns_answer_parsing_works() {
    let record = DnsRecord::A {
        domain: "google.com".to_string(),
        addr: Ipv4Addr::new(216, 58, 211, 142),
        ttl: 293,
    };

    let (result, _) = answer(&google_answer()[..], 28).unwrap();

    assert_eq!(result, record);
}

#[test]
fn dns_packet_parsing_works_on_answer() {
    let header = google_header_answer();
    let expected_question = DnsQuestion {
        name: "google.com".to_string(),
        qtype: QueryType::A,
    };
    let record = DnsRecord::A {
        domain: "google.com".to_string(),
        addr: Ipv4Addr::new(216, 58, 211, 142),
        ttl: 293,
    };

    let dns_packet = DnsPacket {
        header,
        questions: vec![expected_question],
        answers: vec![record],
        authorities: vec![],
        resources: vec![],
    };

    let result = packet(&google_answer()[..]).unwrap();

    assert_eq!(result, dns_packet);
}

#[test]
fn dns_packet_parsing_works_on_question() {
    let header = google_header_question();
    let expected_question = DnsQuestion {
        name: "google.com".to_string(),
        qtype: QueryType::A,
    };

    let dns_packet = DnsPacket {
        header,
        questions: vec![expected_question],
        answers: vec![],
        authorities: vec![],
        resources: vec![],
    };

    let result = packet(&google_query()[..]).unwrap();

    assert_eq!(result, dns_packet);
}

fn yahoo_packet() -> [u8; 95] {
    [
        0x03, 0x32, 0x81, 0x80, 0x00, 0x01, 0x00, 0x03, 0x00, 0x00, 0x00, 0x00, // header
        0x03, 0x77, 0x77, 0x77, 0x05, 0x79, 0x61, 0x68, 0x6f, 0x6f, 0x03, 0x63, 0x6f, 0x6d, 0x00, // www.yahoo.com
        0x00, 0x01, 0x00, 0x01, // query type and query question
        // answer 1
        0xc0, 0x0c, // jump location
        0x00, 0x05, 0x00, 0x01, // query type and query class
        0x00, 0x00, 0x00, 0x13, // ttl
        0x00, 0x14, // len
        // canonical name (with a jump at the end to the yahoo.com location)
        0x0b, 0x6e, 0x65, 0x77, 0x2d, 0x66, 0x70, 0x2d, 0x73, 0x68, 0x65, 0x64, 0x03, 0x77, 0x67, 0x31, 0x01, 0x62, 0xc0, 0x10,
        // answer 2
        0xc0, 0x2b, // jump location
        0x00, 0x01, 0x00, 0x01, // query type and query class
        0x00, 0x00, 0x00, 0x14, // ttl
        0x00, 0x04, // len
        0xca, 0xa5, 0x6b, 0x32, // ip
        // answer 3
        0xc0, 0x2b, // jump location
        0x00, 0x01, 0x00, 0x01, // query type and query class
        0x00, 0x00, 0x00, 0x14, // ttl
        0x00, 0x04, // len
        0xca, 0xa5, 0x6b, 0x31, // ip
    ]
}

#[test]
fn dns_answer_complicated_parse() {
    let header = DnsHeader {
        id: 818,
        recursion_desired: true,
        truncated_message: false,
        authoritative_answer: false,
        opcode: 0,
        response: true,
        rescode: ResponseCode::NOERROR,
        checking_disabled: false,
        authed_data: false,
        z: false,
        recursion_available: true,
        questions: 1,
        answers: 3,
        authoritative_entries: 0,
        resource_entries: 0,
    };
    let question = DnsQuestion {
        name: "www.yahoo.com".to_string(),
        qtype: QueryType::A,
    };
    let records = vec![
        DnsRecord::CNAME {
            domain: "www.yahoo.com".to_string(),
            host: "new-fp-shed.wg1.b.yahoo.com".to_string(),
            ttl: 19,
        },
        DnsRecord::A {
            domain: "new-fp-shed.wg1.b.yahoo.com".to_string(),
            addr: Ipv4Addr::new(202, 165, 107, 50),
            ttl: 20,
        },
        DnsRecord::A {
            domain: "new-fp-shed.wg1.b.yahoo.com".to_string(),
            addr: Ipv4Addr::new(202, 165, 107, 49),
            ttl: 20,
        },
    ];

    let pack = DnsPacket {
        header,
        questions: vec![question],
        answers: records,
        authorities: vec![],
        resources: vec![],
    };

    let result = packet(&yahoo_packet()[..]).unwrap();

    assert_eq!(pack, result);
}

#[test]
fn dns_authorities_parsing_works() {
    let pack_buf = [
        0x4, 0xd1, 0x81, 0x0, 0x0, 0x1, 0x0, 0x0, 0x0, 0xd, 0x0, 0xe, // header
        0x6, 0x67, 0x6f, 0x6f, 0x67, 0x6c, 0x65, 0x3, 0x63, 0x6f, 0x6d, 0x0, 0x0, 0x1, 0x0,
        0x1, // question
        // authorities
        0xc0, 0x13, 0x0, 0x2, 0x0, 0x1, 0x0, 0x2, 0xa3, 0x0, 0x0, 0x14, 0x1, 0x61, 0xc, 0x67,
        0x74, 0x6c, 0x64, 0x2d, 0x73, 0x65, 0x72, 0x76, 0x65, 0x72, 0x73, 0x3, 0x6e, 0x65, 0x74,
        0x0, 0xc0, 0x13, 0x0, 0x2, 0x0, 0x1, 0x0, 0x2, 0xa3, 0x0, 0x0, 0x4, 0x1, 0x62, 0xc0, 0x2a,
        0xc0, 0x13, 0x0, 0x2, 0x0, 0x1, 0x0, 0x2, 0xa3, 0x0, 0x0, 0x4, 0x1, 0x63, 0xc0, 0x2a,
        0xc0, 0x13, 0x0, 0x2, 0x0, 0x1, 0x0, 0x2, 0xa3, 0x0, 0x0, 0x4, 0x1, 0x64, 0xc0, 0x2a,
        0xc0, 0x13, 0x0, 0x2, 0x0, 0x1, 0x0, 0x2, 0xa3, 0x0, 0x0, 0x4, 0x1, 0x65, 0xc0, 0x2a,
        0xc0, 0x13, 0x0, 0x2, 0x0, 0x1, 0x0, 0x2, 0xa3, 0x0, 0x0, 0x4, 0x1, 0x66, 0xc0, 0x2a,
        0xc0, 0x13, 0x0, 0x2, 0x0, 0x1, 0x0, 0x2, 0xa3, 0x0, 0x0, 0x4, 0x1, 0x67, 0xc0, 0x2a,
        0xc0, 0x13, 0x0, 0x2, 0x0, 0x1, 0x0, 0x2, 0xa3, 0x0, 0x0, 0x4, 0x1, 0x68, 0xc0, 0x2a,
        0xc0, 0x13, 0x0, 0x2, 0x0, 0x1, 0x0, 0x2, 0xa3, 0x0, 0x0, 0x4, 0x1, 0x69, 0xc0, 0x2a,
        0xc0, 0x13, 0x0, 0x2, 0x0, 0x1, 0x0, 0x2, 0xa3, 0x0, 0x0, 0x4, 0x1, 0x6a, 0xc0, 0x2a,
        0xc0, 0x13, 0x0, 0x2, 0x0, 0x1, 0x0, 0x2, 0xa3, 0x0, 0x0, 0x4, 0x1, 0x6b, 0xc0, 0x2a,
        0xc0, 0x13, 0x0, 0x2, 0x0, 0x1, 0x0, 0x2, 0xa3, 0x0, 0x0, 0x4, 0x1, 0x6c, 0xc0, 0x2a,
        0xc0, 0x13, 0x0, 0x2, 0x0, 0x1, 0x0, 0x2, 0xa3, 0x0, 0x0, 0x4, 0x1, 0x6d, 0xc0, 0x2a,
        0xc0, 0x28, 0x0, 0x1, 0x0, 0x1, 0x0, 0x2, 0xa3, 0x0, 0x0, 0x4,
        // resources
        0xc0, 0x5, 0x6, 0x1e, 0xc0, 0x48, 0x0, 0x1, 0x0, 0x1, 0x0, 0x2, 0xa3, 0x0, 0x0, 0x4,
        0xc0, 0x21, 0xe, 0x1e, 0xc0, 0x58, 0x0, 0x1, 0x0, 0x1, 0x0, 0x2, 0xa3, 0x0, 0x0, 0x4,
        0xc0, 0x1a, 0x5c, 0x1e, 0xc0, 0x68, 0x0, 0x1, 0x0, 0x1, 0x0, 0x2, 0xa3, 0x0, 0x0, 0x4,
        0xc0, 0x1f, 0x50, 0x1e, 0xc0, 0x78, 0x0, 0x1, 0x0, 0x1, 0x0, 0x2, 0xa3, 0x0, 0x0, 0x4,
        0xc0, 0xc, 0x5e, 0x1e, 0xc0, 0x88, 0x0, 0x1, 0x0, 0x1, 0x0, 0x2, 0xa3, 0x0, 0x0, 0x4,
        0xc0, 0x23, 0x33, 0x1e, 0xc0, 0x98, 0x0, 0x1, 0x0, 0x1, 0x0, 0x2, 0xa3, 0x0, 0x0, 0x4,
        0xc0, 0x2a, 0x5d, 0x1e, 0xc0, 0xa8, 0x0, 0x1, 0x0, 0x1, 0x0, 0x2, 0xa3, 0x0, 0x0, 0x4,
        0xc0, 0x36, 0x70, 0x1e, 0xc0, 0xb8, 0x0, 0x1, 0x0, 0x1, 0x0, 0x2, 0xa3, 0x0, 0x0, 0x4,
        0xc0, 0x2b, 0xac, 0x1e, 0xc0, 0xc8, 0x0, 0x1, 0x0, 0x1, 0x0, 0x2, 0xa3, 0x0, 0x0, 0x4,
        0xc0, 0x30, 0x4f, 0x1e, 0xc0, 0xd8, 0x0, 0x1, 0x0, 0x1, 0x0, 0x2, 0xa3, 0x0, 0x0, 0x4,
        0xc0, 0x34, 0xb2, 0x1e, 0xc0, 0xe8, 0x0, 0x1, 0x0, 0x1, 0x0, 0x2, 0xa3, 0x0, 0x0, 0x4,
        0xc0, 0x29, 0xa2, 0x1e, 0xc0, 0xf8, 0x0, 0x1, 0x0, 0x1, 0x0, 0x2, 0xa3, 0x0, 0x0, 0x4,
        0xc0, 0x37, 0x53, 0x1e, 0xc0, 0x28, 0x0, 0x1c, 0x0, 0x1, 0x0, 0x2, 0xa3, 0x0, 0x0, 0x10,
        0x20, 0x1, 0x5, 0x3, 0xa8, 0x3e, 0x0, 0x0, 0x0, 0x0, 0x0, 0x0, 0x0, 0x2, 0x0, 0x30,
    ];

    let header = DnsHeader {
        id: 1233,
        recursion_desired: true,
        truncated_message: false,
        authoritative_answer: false,
        opcode: 0,
        response: true,
        rescode: ResponseCode::NOERROR,
        checking_disabled: false,
        authed_data: false,
        z: false,
        recursion_available: false,
        questions: 1,
        answers: 0,
        authoritative_entries: 13,
        resource_entries: 14,
    };
    let question = DnsQuestion {
        name: "google.com".to_string(),
        qtype: QueryType::A,
    };
    let ns_hosts = [
        "a.gtld-servers.net",
        "b.gtld-servers.net",
        "c.gtld-servers.net",
        "d.gtld-servers.net",
        "e.gtld-servers.net",
        "f.gtld-servers.net",
        "g.gtld-servers.net",
        "h.gtld-servers.net",
        "i.gtld-servers.net",
        "j.gtld-servers.net",
        "k.gtld-servers.net",
        "l.gtld-servers.net",
        "m.gtld-servers.net",
    ];
    let authoritative_records: Vec<DnsRecord> = ns_hosts
        .iter()
        .map(|host| DnsRecord::NS {
            domain: "com".to_string(),
            host: host.to_string(),
            ttl: 172800,
        })
        .collect();

    let glue = [
        ("a.gtld-servers.net", Ipv4Addr::new(192, 5, 6, 30)),
        ("b.gtld-servers.net", Ipv4Addr::new(192, 33, 14, 30)),
        ("c.gtld-servers.net", Ipv4Addr::new(192, 26, 92, 30)),
        ("d.gtld-servers.net", Ipv4Addr::new(192, 31, 80, 30)),
        ("e.gtld-servers.net", Ipv4Addr::new(192, 12, 94, 30)),
        ("f.gtld-servers.net", Ipv4Addr::new(192, 35, 51, 30)),
        ("g.gtld-servers.net", Ipv4Addr::new(192, 42, 93, 30)),
        ("h.gtld-servers.net", Ipv4Addr::new(192, 54, 112, 30)),
        ("i.gtld-servers.net", Ipv4Addr::new(192, 43, 172, 30)),
        ("j.gtld-servers.net", Ipv4Addr::new(192, 48, 79, 30)),
        ("k.gtld-servers.net", Ipv4Addr::new(192, 52, 178, 30)),
        ("l.gtld-servers.net", Ipv4Addr::new(192, 41, 162, 30)),
        ("m.gtld-servers.net", Ipv4Addr::new(192, 55, 83, 30)),
    ];
    let mut resource_records: Vec<DnsRecord> = glue
        .iter()
        .map(|(domain, addr)| DnsRecord::A {
            domain: domain.to_string(),
            addr: *addr,
            ttl: 172800,
        })
        .collect();
    resource_records.push(DnsRecord::AAAA {
        domain: "a.gtld-servers.net".to_string(),
        addr: Ipv6Addr::new(0x2001, 0x503, 0xa83e, 0, 0, 0, 2, 0x30),
        ttl: 172800,
    });

    let pack = DnsPacket {
        header,
        questions: vec![question],
        answers: vec![],
        authorities: authoritative_records,
        resources: resource_records,
    };

    let result = packet(&pack_buf[..]).unwrap();

    assert_eq!(pack, result);
}

#[test]
fn pointer_loop_is_rejected() {
    // A name at offset 12 whose pointer targets offset 12: c0 0c.
    let buf = [
        0x00, 0x01, 0x00, 0x00, 0x00, 0x01, 0x00, 0x00, 0x00, 0x00, 0x00, 0x00, // header
        0xc0, 0x0c, // self-pointing name
        0x00, 0x01, 0x00, 0x01, // qtype, qclass
    ];
    assert_eq!(packet(&buf[..]), Err(DnsError::FormatError));
    assert_eq!(domain_name(&buf[..], 12), Err(DnsError::FormatError));
}

#[test]
fn bad_label_bits_are_rejected() {
    // A length octet with high bits 01 is neither label nor pointer.
    let buf = [0x45, 0x61, 0x00];
    assert_eq!(domain_name(&buf[..], 0), Err(DnsError::FormatError));
}

#[test]
fn trailing_bytes_are_rejected() {
    let mut buf = google_query().to_vec();
    buf.push(0);
    assert_eq!(packet(&buf[..]), Err(DnsError::FormatError));
}

#[test]
fn truncated_packet_is_rejected() {
    let buf = google_query();
    assert_eq!(packet(&buf[..27]), Err(DnsError::FormatError));
}

#[test]
fn invalid_utf8_label_is_replaced() {
    // One label of a single 0xff octet, which is not valid UTF-8.
    let buf = [0x01, 0xff, 0x00];
    let (name, end) = domain_name(&buf[..], 0).unwrap();
    assert_eq!(name, "\u{fffd}");
    assert_eq!(end, 3);
}

#[test]
fn overlong_name_expansion_is_rejected() {
    // Four labels of 63 octets each expand to 259 octets, past the
    // 255-octet name bound.
    let mut buf: Vec<u8> = Vec::new();
    for _ in 0..4 {
        buf.push(63);
        for _ in 0..63 {
            buf.push(b'a');
        }
    }
    buf.push(0);
    assert_eq!(domain_name(&buf[..], 0), Err(DnsError::FormatError));
}
