use iris::addr::Ipv4Addr;
use iris::packet::Packet;
use iris::query::Query;
use iris::query_type::QueryType;
use iris::resolver::{
    add_lookup_result, lookup_request, new_reply, next_step, root_server, Action, Resolution,
    Step,
};
use iris::resource_record::ResourceRecord;
use iris::return_code::ReturnCode;

fn ns(domain: &str, host: &str) -> ResourceRecord {
    ResourceRecord::NS {
        domain: domain.to_string(),
        host: host.to_string(),
        ttl: 100,
    }
}

fn a(domain: &str, ip: [u8; 4]) -> ResourceRecord {
    ResourceRecord::A {
        domain: domain.to_string(),
        ip_addr: Ipv4Addr::new(ip[0], ip[1], ip[2], ip[3]),
        ttl: 100,
    }
}

fn expect_query(action: Action) -> (String, QueryType, Ipv4Addr) {
    match action {
        Action::Query {
            qname,
            qtype,
            server,
        } => (qname, qtype, server),
        Action::Finished(p) => panic!("finished early: {:?}", p),
    }
}

fn expect_finished(action: Action) -> Packet {
    match action {
        Action::Finished(p) => p,
        Action::Query { qname, .. } => panic!("still asking for {}", qname),
    }
}

#[test]
fn referral_chase() {
    let (mut resolution, first) = Resolution::start("google.com", QueryType::A);
    let (qname, qtype, server) = expect_query(first);
    assert_eq!(qname, "google.com");
    assert_eq!(qtype, QueryType::A);
    assert_eq!(server, Ipv4Addr::new(198, 41, 0, 4));

    let mut from_root = Packet::new();
    from_root
        .authoritative_records
        .push(ns("com", "a.gtld-servers.net"));
    from_root
        .additional_records
        .push(a("a.gtld-servers.net", [192, 5, 6, 30]));
    let (qname, _, server) = expect_query(resolution.on_response(from_root));
    assert_eq!(qname, "google.com");
    assert_eq!(server, Ipv4Addr::new(192, 5, 6, 30));

    let mut answer = Packet::new();
    answer.header.return_code = ReturnCode::NOERROR;
    answer
        .answer_records
        .push(a("google.com", [93, 184, 216, 34]));
    let result = expect_finished(resolution.on_response(answer.clone()));
    assert_eq!(result, answer);
}

#[test]
fn nxdomain_short_circuit() {
    let (mut resolution, _) = Resolution::start("nope.example", QueryType::A);
    let mut response = Packet::new();
    response.header.return_code = ReturnCode::NXDOMAIN;
    response.authoritative_records.push(ns("example", "ns.example"));
    let result = expect_finished(resolution.on_response(response.clone()));
    assert_eq!(result, response);
}

#[test]
fn server_host_without_glue_is_resolved_first() {
    let (mut resolution, _) = Resolution::start("google.com", QueryType::A);

    let mut referral = Packet::new();
    referral.authoritative_records.push(ns("com", "ns.other.net"));
    let (qname, qtype, server) = expect_query(resolution.on_response(referral));
    assert_eq!(qname, "ns.other.net");
    assert_eq!(qtype, QueryType::A);
    assert_eq!(server, root_server());

    let mut host_answer = Packet::new();
    host_answer.answer_records.push(a("ns.other.net", [10, 0, 0, 1]));
    host_answer.answer_records.push(a("ns.other.net", [10, 0, 0, 2]));
    let (qname, _, server) = expect_query(resolution.on_response(host_answer));
    assert_eq!(qname, "google.com");
    assert_eq!(server, Ipv4Addr::new(10, 0, 0, 2));

    let mut answer = Packet::new();
    answer.answer_records.push(a("google.com", [1, 2, 3, 4]));
    let result = expect_finished(resolution.on_response(answer.clone()));
    assert_eq!(result, answer);
}

#[test]
fn unresolvable_server_host_returns_the_referral() {
    let (mut resolution, _) = Resolution::start("google.com", QueryType::A);
    let mut referral = Packet::new();
    referral.authoritative_records.push(ns("com", "ns.other.net"));
    expect_query(resolution.on_response(referral.clone()));
    // the host's own lookup is a dead end
    let dead_end = Packet::new();
    let result = expect_finished(resolution.on_response(dead_end));
    assert_eq!(result, referral);
}

#[test]
fn dead_end_returns_the_response() {
    let mut response = Packet::new();
    response.authoritative_records.push(ns("org", "ns.org"));
    let step = next_step("google.com", &response);
    assert!(matches!(step, Step::Done));
    let (mut resolution, _) = Resolution::start("google.com", QueryType::A);
    assert_eq!(expect_finished(resolution.on_response(response.clone())), response);
}

#[test]
fn zones_match_on_label_boundaries() {
    let mut response = Packet::new();
    response.authoritative_records.push(ns("google.com", "ns1.google.com"));
    response.authoritative_records.push(ns("", "root.example"));
    response.authoritative_records.push(ns("le.com", "ns.le.com"));
    response.authoritative_records.push(ns("com", "a.gtld-servers.net"));
    assert_eq!(
        response.get_ns_hosts("evilgoogle.com"),
        vec!["root.example".to_string(), "a.gtld-servers.net".to_string()]
    );
    assert_eq!(
        response.get_ns_hosts("google.com"),
        vec![
            "ns1.google.com".to_string(),
            "root.example".to_string(),
            "a.gtld-servers.net".to_string()
        ]
    );
}

#[test]
fn glue_follows_hosts_in_order() {
    let mut response = Packet::new();
    response.answer_records.push(a("x.com", [9, 9, 9, 9]));
    response.authoritative_records.push(ns("com", "b.net"));
    response.authoritative_records.push(ns("com", "a.net"));
    response.additional_records.push(a("a.net", [1, 1, 1, 1]));
    response.additional_records.push(a("b.net", [2, 2, 2, 2]));
    response.additional_records.push(a("a.net", [3, 3, 3, 3]));
    assert_eq!(
        response.get_ns_from_additional_records("x.com"),
        vec![
            Ipv4Addr::new(2, 2, 2, 2),
            Ipv4Addr::new(1, 1, 1, 1),
            Ipv4Addr::new(3, 3, 3, 3)
        ]
    );
    assert_eq!(
        response.get_answer_a_records(),
        vec![Ipv4Addr::new(9, 9, 9, 9)]
    );
    assert!(matches!(next_step("x.com", &response), Step::Done));
    response.answer_records.clear();
    match next_step("x.com", &response) {
        Step::NextServer(ip) => assert_eq!(ip, Ipv4Addr::new(3, 3, 3, 3)),
        other => panic!("unexpected {:?}", other),
    }
}

#[test]
fn upstream_request_shape() {
    let request = lookup_request("google.com", QueryType::NS);
    assert_eq!(request.header.id, 1234);
    assert_eq!(request.header.queries_total, 1);
    assert!(request.header.recursion_desired);
    assert_eq!(
        request.queries,
        vec![Query::new("google.com".to_string(), QueryType::NS)]
    );
}

#[test]
fn reply_assembly() {
    let mut request = Packet::new();
    request.header.id = 77;
    let reply = new_reply(&request);
    assert_eq!(reply.header.id, 77);
    assert!(reply.header.response);
    assert!(reply.header.recursion_desired);
    assert!(reply.header.recursion_available);
    assert_eq!(reply.header.return_code, ReturnCode::FORMERR);

    let query = Query::new("google.com".to_string(), QueryType::A);
    request.queries.push(query.clone());
    let mut reply = new_reply(&request);
    assert_eq!(reply.header.return_code, ReturnCode::NOERROR);
    let mut result = Packet::new();
    result.header.return_code = ReturnCode::NXDOMAIN;
    result.authoritative_records.push(ns("com", "a.gtld-servers.net"));
    add_lookup_result(&mut reply, &query, Some(result), false);
    assert_eq!(reply.queries, vec![query.clone()]);
    assert_eq!(reply.header.return_code, ReturnCode::NXDOMAIN);
    assert_eq!(reply.authoritative_records.len(), 1);
    add_lookup_result(&mut reply, &query, None, false);
    assert_eq!(reply.header.return_code, ReturnCode::SERVFAIL);
    assert_eq!(reply.queries.len(), 1);
    assert_eq!(reply.authoritative_records.len(), 1);
}

#[test]
fn failed_question_keeps_servfail() {
    let mut request = Packet::new();
    let first = Query::new("broken.example".to_string(), QueryType::A);
    let second = Query::new("google.com".to_string(), QueryType::A);
    request.queries.push(first.clone());
    request.queries.push(second.clone());
    let mut reply = new_reply(&request);
    add_lookup_result(&mut reply, &first, None, false);
    assert_eq!(reply.header.return_code, ReturnCode::SERVFAIL);
    let mut result = Packet::new();
    result.header.return_code = ReturnCode::NOERROR;
    result.answer_records.push(a("google.com", [93, 184, 216, 34]));
    add_lookup_result(&mut reply, &second, Some(result), true);
    assert_eq!(reply.header.return_code, ReturnCode::SERVFAIL);
    assert_eq!(reply.queries, vec![second]);
    assert_eq!(reply.answer_records.len(), 1);
}

#[test]
fn last_successful_code_wins() {
    let mut request = Packet::new();
    let first = Query::new("a.example".to_string(), QueryType::A);
    let second = Query::new("b.example".to_string(), QueryType::A);
    request.queries.push(first.clone());
    request.queries.push(second.clone());
    let mut reply = new_reply(&request);
    let mut upstream_failure = Packet::new();
    upstream_failure.header.return_code = ReturnCode::SERVFAIL;
    add_lookup_result(&mut reply, &first, Some(upstream_failure), false);
    assert_eq!(reply.header.return_code, ReturnCode::SERVFAIL);
    let mut answer = Packet::new();
    answer.header.return_code = ReturnCode::NOERROR;
    answer.answer_records.push(a("b.example", [1, 2, 3, 4]));
    add_lookup_result(&mut reply, &second, Some(answer), false);
    assert_eq!(reply.header.return_code, ReturnCode::NOERROR);
    assert_eq!(reply.queries, vec![first, second]);
    assert_eq!(reply.answer_records.len(), 1);
}
