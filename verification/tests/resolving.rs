use dns_resolver::resolver::{
    build_failure_response, build_success_response, delegation_step, mk_query, root_dns_server,
    LookupStep,
};
use dns_resolver::types::{
    DnsHeader, DnsPacket, DnsQuestion, DnsRecord, Ipv4Addr, QueryType, ResponseCode,
};
use dns_resolver::utils::isperse;

fn plain_header(id: u16) -> DnsHeader {
    DnsHeader {
        id,
        response: false,
        opcode: 0,
        authoritative_answer: false,
        truncated_message: false,
        recursion_desired: false,
        recursion_available: false,
        z: false,
        authed_data: false,
        checking_disabled: false,
        rescode: ResponseCode::NOERROR,
        questions: 0,
        answers: 0,
        authoritative_entries: 0,
        resource_entries: 0,
    }
}

fn delegation_response(with_glue: bool) -> DnsPacket {
    let authorities = vec![DnsRecord::NS {
        domain: "com".to_string(),
        host: "a.gtld-servers.net".to_string(),
        ttl: 172800,
    }];
    let resources = if with_glue {
        vec![DnsRecord::A {
            domain: "a.gtld-servers.net".to_string(),
            addr: Ipv4Addr::new(192, 5, 6, 30),
            ttl: 172800,
        }]
    } else {
        vec![]
    };
    DnsPacket {
        header: plain_header(10),
        questions: vec![DnsQuestion {
            name: "google.com".to_string(),
            qtype: QueryType::A,
        }],
        answers: vec![],
        authorities,
        resources,
    }
}

#[test]
fn get_resolved_ns_works() {
    let pack = delegation_response(true);

    let result = pack.get_resolved_ns("google.com");

    assert_eq!(Some(Ipv4Addr::new(192, 5, 6, 30)), result);
}

#[test]
fn delegation_with_glue_is_followed() {
    let pack = delegation_response(true);
    assert_eq!(
        delegation_step(&pack, "google.com"),
        LookupStep::FollowGlue(Ipv4Addr::new(192, 5, 6, 30))
    );
}

#[test]
fn delegation_without_glue_resolves_the_nameserver() {
    let pack = delegation_response(false);

    assert_eq!(pack.get_resolved_ns("google.com"), None);
    assert_eq!(
        pack.get_unresolved_ns("google.com"),
        Some("a.gtld-servers.net".to_string())
    );
    // The engine must now look the nameserver's own address up.
    assert_eq!(
        delegation_step(&pack, "google.com"),
        LookupStep::ResolveNs("a.gtld-servers.net".to_string())
    );
}

#[test]
fn nxdomain_ends_the_walk() {
    let mut pack = delegation_response(true);
    pack.header.rescode = ResponseCode::NXDOMAIN;
    assert_eq!(delegation_step(&pack, "google.com"), LookupStep::Nxdomain);
}

#[test]
fn answered_response_is_returned() {
    let mut pack = delegation_response(true);
    pack.answers.push(DnsRecord::A {
        domain: "google.com".to_string(),
        addr: Ipv4Addr::new(142, 250, 74, 110),
        ttl: 300,
    });
    assert_eq!(delegation_step(&pack, "google.com"), LookupStep::Answered);
}

#[test]
fn unmatched_delegation_gives_up() {
    let pack = delegation_response(true);
    // The owner "com" is not a suffix of this name.
    assert_eq!(delegation_step(&pack, "example.org"), LookupStep::GiveUp);
}

#[test]
fn suffix_match_is_literal() {
    let pack = delegation_response(true);
    // A literal ends-with match: "mycom" ends with "com" too.
    assert_eq!(
        delegation_step(&pack, "mycom"),
        LookupStep::FollowGlue(Ipv4Addr::new(192, 5, 6, 30))
    );
}

#[test]
fn get_random_a_takes_first_answer() {
    let mut pack = delegation_response(true);
    assert_eq!(pack.get_random_a(), None);
    pack.answers.push(DnsRecord::NS {
        domain: "google.com".to_string(),
        host: "ns1.google.com".to_string(),
        ttl: 300,
    });
    pack.answers.push(DnsRecord::A {
        domain: "google.com".to_string(),
        addr: Ipv4Addr::new(142, 250, 74, 110),
        ttl: 300,
    });
    pack.answers.push(DnsRecord::A {
        domain: "google.com".to_string(),
        addr: Ipv4Addr::new(8, 8, 4, 4),
        ttl: 300,
    });
    assert_eq!(pack.get_random_a(), Some(Ipv4Addr::new(142, 250, 74, 110)));
}

#[test]
fn first_question_helpers_work() {
    let pack = delegation_response(true);
    assert_eq!(pack.qname(), Some("google.com".to_string()));
    assert_eq!(pack.qtype(), Some(QueryType::A));
    assert!(!pack.has_answers());
    assert_eq!(pack.rescode(), ResponseCode::NOERROR);
}

#[test]
fn mk_query_sets_the_question() {
    let query = mk_query(818, "google.com", QueryType::A);
    assert_eq!(query.header.id, 818);
    assert_eq!(query.header.questions, 1);
    assert!(query.header.recursion_desired);
    assert!(!query.header.response);
    assert_eq!(query.questions.len(), 1);
    assert_eq!(query.questions[0].name, "google.com");
    assert_eq!(query.questions[0].qtype, QueryType::A);
}

#[test]
fn responses_carry_the_client_id() {
    let question = DnsQuestion {
        name: "google.com".to_string(),
        qtype: QueryType::A,
    };
    let mut result = delegation_response(true);
    result.answers.push(DnsRecord::A {
        domain: "google.com".to_string(),
        addr: Ipv4Addr::new(142, 250, 74, 110),
        ttl: 300,
    });
    let ok = build_success_response(777, &question, result);
    assert_eq!(ok.header.id, 777);
    assert!(ok.header.response && ok.header.recursion_available);
    assert_eq!(ok.header.answers, 1);
    assert_eq!(ok.header.authoritative_entries, 1);
    assert_eq!(ok.questions, vec![question]);

    let failed = build_failure_response(777, ResponseCode::SERVFAIL);
    assert_eq!(failed.header.id, 777);
    assert_eq!(failed.header.rescode, ResponseCode::SERVFAIL);
    assert!(failed.questions.is_empty() && failed.answers.is_empty());
}

#[test]
fn rescode_and_qtype_values_match_the_wire() {
    assert_eq!(ResponseCode::from_num(3), ResponseCode::NXDOMAIN);
    assert_eq!(ResponseCode::from_num(9), ResponseCode::NOERROR);
    assert_eq!(ResponseCode::SERVFAIL.to_num(), 2);
    assert_eq!(QueryType::from_num(28), QueryType::AAAA);
    assert_eq!(QueryType::from_num(99), QueryType::UNKNOWN(99));
    assert_eq!(QueryType::MX.to_num(), 15);
    assert_eq!(QueryType::UNKNOWN(99).to_num(), 99);
}

#[test]
fn isperse_joins_with_dots() {
    assert_eq!(isperse(vec![]), "");
    assert_eq!(isperse(vec!["google".to_string(), "com".to_string()]), "google.com");
    assert_eq!(isperse(vec!["a".to_string(), "".to_string(), "b".to_string()]), "a..b");
}

#[test]
fn root_server_is_fixed() {
    let (addr, port) = root_dns_server();
    assert_eq!(addr, Ipv4Addr::new(198, 41, 0, 4));
    assert_eq!(port, 53);
}
