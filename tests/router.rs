use droute::error::{ConfigError, UpstreamError};
use droute::filter::{Filter, Rule};
use droute::router::{failure_reply, ipv6_reply, settle, Route, Router};
use droute::upstream::{cache_ttl, first_success, Upstream, UpstreamKind, Upstreams};
use trust_dns_client::op::{Message, MessageType, OpCode, Query, ResponseCode};
use trust_dns_client::rr::{Name, RData, Record, RecordType};

fn udp(tag: &str) -> Upstream {
    Upstream {
        tag: tag.to_string(),
        method: UpstreamKind::Udp("127.0.0.1:53".to_string()),
        timeout: 5,
    }
}

fn hybrid(tag: &str, refs: &[&str]) -> Upstream {
    Upstream {
        tag: tag.to_string(),
        method: UpstreamKind::Hybrid(refs.iter().map(|s| s.to_string()).collect()),
        timeout: 5,
    }
}

fn query(name: &str, ty: RecordType) -> Message {
    let mut msg = Message::new();
    msg.add_query(Query::query(Name::from_utf8(name).unwrap(), ty));
    msg
}

fn route_tag(r: Route) -> String {
    match r {
        Route::Forward(t) => t,
        Route::Ipv6Blocked => panic!("query was answered locally"),
    }
}

fn sample_router(disable_ipv6: bool) -> Router {
    Router::new(
        vec![udp("main"), udp("china"), udp("block")],
        disable_ipv6,
        0,
        "main".to_string(),
        vec![
            Rule::new("china".to_string(), "baidu.com\nqq.com\n"),
            Rule::new("block".to_string(), "ads.example\nbaidu.com\n"),
        ],
    )
    .unwrap()
}

#[test]
fn test_resolve() {
    let answer = {
        let mut msg = Message::new();
        msg.add_answer(Record::from_rdata(
            Name::from_utf8("www.apple.com").unwrap(),
            32,
            RData::A("1.1.1.1".parse().unwrap()),
        ));
        msg.set_message_type(MessageType::Response);
        msg
    };
    let request = query("www.apple.com", RecordType::A);
    let router = Router::new(
        vec![Upstream {
            timeout: 10,
            method: UpstreamKind::Udp("127.0.0.1:53533".to_string()),
            tag: "mock".into(),
        }],
        true,
        0,
        "mock".into(),
        vec![],
    )
    .unwrap();
    let tag = route_tag(router.route(&request));
    assert_eq!(tag, "mock");
    let reply = settle::<String>(&request, Ok(answer.clone()));
    assert_eq!(reply.answers(), answer.answers());
}

#[test]
fn new_accepts_known_tags() {
    let router = sample_router(false);
    assert!(router.check().unwrap());
    assert!(!router.disable_ipv6());
    assert_eq!(router.upstreams().cache_size(), 0);
}

#[test]
fn new_refuses_unknown_rule_tag() {
    let e = Router::new(
        vec![udp("main")],
        false,
        16,
        "main".to_string(),
        vec![Rule::new("nowhere".to_string(), "example.com")],
    )
    .err()
    .unwrap();
    assert!(e.is_missing_tag());
    assert_eq!(e.tag(), "nowhere");
}

#[test]
fn new_refuses_unknown_default_tag() {
    let e = Router::new(vec![udp("main")], false, 16, "other".to_string(), vec![])
        .err()
        .unwrap();
    assert!(matches!(e, ConfigError::MissingTag(ref t) if t == "other"));
}

#[test]
fn new_refuses_hybrid_to_missing_tag() {
    let e = Router::new(
        vec![udp("a"), hybrid("h", &["a", "gone"])],
        false,
        0,
        "h".to_string(),
        vec![],
    )
    .err()
    .unwrap();
    assert!(matches!(e, ConfigError::BadHybrid(ref t) if t == "h"));
}

#[test]
fn new_refuses_hybrid_cycle() {
    let e = Router::new(
        vec![udp("a"), hybrid("h1", &["a", "h2"]), hybrid("h2", &["h1"])],
        false,
        0,
        "a".to_string(),
        vec![],
    )
    .err()
    .unwrap();
    assert!(matches!(e, ConfigError::BadHybrid(_)));
}

#[test]
fn new_accepts_nested_hybrids() {
    let router = Router::new(
        vec![udp("a"), udp("b"), hybrid("h1", &["a", "h2"]), hybrid("h2", &["b", "a"])],
        false,
        0,
        "h1".to_string(),
        vec![],
    );
    assert!(router.is_ok());
}

#[test]
fn later_definition_of_a_tag_wins() {
    let ups = Upstreams::new(vec![hybrid("h", &["h"]), udp("h")], 4);
    assert!(ups.hybrid_check().is_ok());
    assert!(matches!(ups.get(&"h".to_string()).unwrap().method, UpstreamKind::Udp(_)));
    assert!(ups.get(&"x".to_string()).is_none());
    assert!(ups.require_tag(&"h".to_string()).is_ok());
    assert!(ups.require_tag(&"x".to_string()).is_err());
}

#[test]
fn first_matching_rule_wins() {
    let router = sample_router(false);
    let t = route_tag(router.route(&query("www.baidu.com", RecordType::A)));
    assert_eq!(t, "china");
    let t = route_tag(router.route(&query("x.ads.example", RecordType::A)));
    assert_eq!(t, "block");
    let t = route_tag(router.route(&query("www.apple.com", RecordType::A)));
    assert_eq!(t, "main");
}

#[test]
fn filter_lists_distinct_destinations() {
    let f = Filter::new(
        "d".to_string(),
        vec![
            Rule::new("x".to_string(), "a.com"),
            Rule::new("y".to_string(), "b.com"),
            Rule::new("x".to_string(), "c.com"),
        ],
    );
    assert_eq!(f.get_dsts(), vec!["x".to_string(), "y".to_string()]);
    assert_eq!(f.get_upstream("q.c.com"), "x");
    assert_eq!(f.get_upstream("b.com"), "y");
    assert_eq!(f.get_upstream("com"), "d");
    assert_eq!(f.default_tag(), "d");
}

#[test]
fn ipv6_query_is_answered_locally() {
    let router = sample_router(true);
    let mut request = query("www.baidu.com", RecordType::AAAA);
    request.set_id(4242);
    assert!(matches!(router.route(&request), Route::Ipv6Blocked));
    let reply = ipv6_reply(request);
    assert_eq!(reply.id(), 4242);
    assert_eq!(reply.additionals().len(), 1);
    let rec = &reply.additionals()[0];
    assert_eq!(rec.ttl(), 86400);
    assert_eq!(*rec.name(), Name::from_utf8("www.baidu.com").unwrap());
    match rec.rdata() {
        RData::SOA(soa) => {
            assert_eq!(*soa.mname(), Name::from_utf8("a.gtld-servers.net").unwrap());
            assert_eq!(*soa.rname(), Name::from_utf8("nstld.verisign-grs.com").unwrap());
            assert_eq!(soa.serial(), 1800);
            assert_eq!(soa.refresh(), 1800);
            assert_eq!(soa.retry(), 900);
            assert_eq!(soa.expire(), 604800);
            assert_eq!(soa.minimum(), 86400);
        }
        _ => panic!("expected an SOA record"),
    }
}

#[test]
fn ipv6_query_is_forwarded_when_enabled() {
    let router = sample_router(false);
    let t = route_tag(router.route(&query("www.qq.com", RecordType::AAAA)));
    assert_eq!(t, "china");
}

#[test]
fn zero_queries_use_default_tag() {
    let router = sample_router(true);
    let t = route_tag(router.route(&Message::new()));
    assert_eq!(t, "main");
}

#[test]
fn several_queries_use_default_tag() {
    let router = sample_router(true);
    let mut msg = query("www.baidu.com", RecordType::AAAA);
    msg.add_query(Query::query(Name::from_utf8("qq.com").unwrap(), RecordType::A));
    let t = route_tag(router.route(&msg));
    assert_eq!(t, "main");
}

#[test]
fn upstream_failure_gives_server_failure() {
    let mut request = query("www.apple.com", RecordType::A);
    request.set_id(777);
    request.set_op_code(OpCode::Update);
    let reply = settle(&request, Err("timed out".to_string()));
    assert_eq!(reply.id(), 777);
    assert_eq!(reply.op_code(), OpCode::Update);
    assert_eq!(reply.response_code(), ResponseCode::ServFail);
    assert_eq!(reply.message_type(), MessageType::Response);
    let direct = failure_reply(&request);
    assert_eq!(direct.id(), 777);
    assert_eq!(direct.response_code(), ResponseCode::ServFail);
}

#[test]
fn check_names_first_missing_rule_tag() {
    let e = Router::new(
        vec![udp("main")],
        false,
        0,
        "absent_default".to_string(),
        vec![
            Rule::new("main".to_string(), "a.com"),
            Rule::new("second".to_string(), "b.com"),
            Rule::new("third".to_string(), "c.com"),
        ],
    )
    .err()
    .unwrap();
    assert!(matches!(e, ConfigError::MissingTag(ref t) if t == "second"));
}

#[test]
fn check_reports_bad_hybrid_before_missing_tags() {
    let e = Router::new(
        vec![udp("a"), hybrid("h1", &["a"]), hybrid("h2", &["h2"]), hybrid("h3", &["zz"])],
        false,
        0,
        "absent_default".to_string(),
        vec![Rule::new("absent_rule".to_string(), "a.com")],
    )
    .err()
    .unwrap();
    assert!(matches!(e, ConfigError::BadHybrid(ref t) if t == "h2"));
}

#[test]
fn ipv6_reply_keeps_the_request() {
    let mut request = query("v6.example", RecordType::AAAA);
    request.set_id(9);
    request.set_op_code(OpCode::Query);
    let reply = ipv6_reply(request.clone());
    assert_eq!(reply.id(), 9);
    assert_eq!(reply.op_code(), OpCode::Query);
    assert_eq!(reply.queries(), request.queries());
    assert_eq!(reply.answers().len(), 0);
    assert_eq!(reply.additionals().len(), 1);
}

#[test]
fn ipv6_reply_without_query_is_server_failure() {
    let mut request = Message::new();
    request.set_id(31);
    let reply = ipv6_reply(request);
    assert_eq!(reply.id(), 31);
    assert_eq!(reply.response_code(), ResponseCode::ServFail);
}

#[test]
fn dispatch_finds_transport_or_unknown_tag() {
    let ups = Upstreams::new(vec![udp("a"), hybrid("h", &["a"])], 0);
    assert!(matches!(ups.dispatch(&"a".to_string()), Ok(UpstreamKind::Udp(_))));
    assert!(matches!(ups.dispatch(&"h".to_string()), Ok(UpstreamKind::Hybrid(_))));
    assert!(matches!(
        ups.dispatch(&"x".to_string()),
        Err(UpstreamError::UnknownTag(ref t)) if t == "x"
    ));
}

#[test]
fn cache_ttl_is_minimum_when_some_positive() {
    assert_eq!(cache_ttl(&vec![300, 60, 120]), Some(60));
    assert_eq!(cache_ttl(&vec![0, 30]), Some(0));
    assert_eq!(cache_ttl(&vec![0, 0]), None);
    assert_eq!(cache_ttl(&vec![]), None);
    assert_eq!(cache_ttl(&vec![7]), Some(7));
}

#[test]
fn first_success_takes_earliest_ok() {
    let tag = "h".to_string();
    let r = first_success(&tag, vec![Err("x"), Ok(2), Ok(3)]);
    assert!(matches!(r, Ok(2)));
    let r: Result<i32, UpstreamError> = first_success(&tag, vec![Err("x"), Err("y")]);
    assert!(matches!(r, Err(UpstreamError::AllFailed(ref t)) if t == "h"));
    let r: Result<i32, UpstreamError> = first_success::<i32, &str>(&tag, vec![]);
    assert!(r.is_err());
}
