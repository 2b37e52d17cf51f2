use hermes_dns::cache::{Cache, CacheKey};
use hermes_dns::dns::{Message, MessageHeader, Question, RCode, RecordType, ResourceRecord};
use hermes_dns::resolver::{Action, BlockPolicy, Blocklist, Resolver};
use hermes_dns::settings::{CacheSettings, ResolverSettings, UpstreamSettings};
use hermes_dns::upstreams::{Transport, UpstreamStep, Upstreams};

fn name(parts: &[&str]) -> Vec<Vec<u8>> {
    parts.iter().map(|p| p.as_bytes().to_vec()).collect()
}

fn query(id: u16, parts: &[&str]) -> Message {
    Message {
        header: MessageHeader {
            id,
            qr: 0,
            opcode: 0,
            aa: 0,
            tc: 0,
            rd: 1,
            ra: 0,
            z: 0,
            rcode: RCode::NOERROR,
            qdcount: 1,
            ancount: 0,
            nscount: 0,
            arcount: 0,
        },
        compress: false,
        question: vec![Question { qname: name(parts), qtype: 1, qclass: 1 }],
        answer: Vec::new(),
        authority: Vec::new(),
        extra: Vec::new(),
    }
}

fn answer_for(req: &Message, id: u16, ttls: &[u32]) -> Message {
    let mut m = Message::new(req);
    m.header.id = id;
    for t in ttls {
        m.answer.push(ResourceRecord {
            name: req.question[0].qname.clone(),
            rtype: RecordType::A,
            rclass: 1,
            ttl: *t,
            rdlength: 4,
            rdata: vec![192, 0, 2, 1],
        });
    }
    m.header.ancount = ttls.len() as u16;
    m
}

fn upstream(addr: &str, protocol: &str) -> UpstreamSettings {
    UpstreamSettings { address: addr.to_string(), port: 53, protocol: protocol.to_string() }
}

fn resolver(n_upstreams: usize, cache_on: bool, blocklist: Blocklist, policy: BlockPolicy) -> Resolver {
    let settings = ResolverSettings {
        cache: CacheSettings { enabled: cache_on, size: 8 },
        upstreams: (0..n_upstreams).map(|i| upstream(&format!("10.0.0.{}", i + 1), "udp")).collect(),
        blocked: "drop".to_string(),
    };
    Resolver::new(&settings, blocklist, policy)
}

fn key(parts: &[&str]) -> CacheKey {
    CacheKey::of(&Question { qname: name(parts), qtype: 1, qclass: 1 })
}

#[test]
fn blocked_domain_skips_cache_and_upstream() {
    let mut bl = Blocklist::new();
    bl.insert(&name(&["ads", "example"]));
    let mut r = resolver(2, true, bl, BlockPolicy::NxDomain);
    let req = query(0x1111, &["track", "ADS", "example"]);
    match r.begin(&req, 100) {
        Action::Respond(m) => {
            assert_eq!(m.header.rcode, RCode::NXDOMAIN);
            assert_eq!(m.header.id, 0x1111);
        }
        other => panic!("unexpected {:?}", other),
    }
    let ok = query(2, &["example"]);
    assert!(matches!(r.begin(&ok, 100), Action::Forward(0)));
}

#[test]
fn blocked_domain_dropped_or_refused_by_policy() {
    let mut bl = Blocklist::new();
    bl.insert(&name(&["bad", "test"]));
    let mut r = resolver(1, true, bl, BlockPolicy::Drop);
    assert!(matches!(r.begin(&query(3, &["bad", "test"]), 0), Action::Drop));
    let mut bl2 = Blocklist::new();
    bl2.insert(&name(&["bad", "test"]));
    let mut r2 = resolver(1, true, bl2, BlockPolicy::Refused);
    match r2.begin(&query(3, &["x", "bad", "test"]), 0) {
        Action::Respond(m) => assert_eq!(m.header.rcode, RCode::REFUSED),
        other => panic!("unexpected {:?}", other),
    }
}

#[test]
fn blocklist_matches_suffix_by_labels() {
    let mut bl = Blocklist::new();
    bl.insert(&name(&["Example", "com"]));
    assert!(bl.contains(&name(&["example", "com"])));
    assert!(bl.contains(&name(&["www", "EXAMPLE", "com"])));
    assert!(!bl.contains(&name(&["notexample", "com"])));
    assert!(!bl.contains(&name(&["com"])));
}

#[test]
fn cached_answer_skips_upstream() {
    let mut r = resolver(2, true, Blocklist::new(), BlockPolicy::Drop);
    let req = query(0x0101, &["example", "org"]);
    assert!(matches!(r.begin(&req, 1000), Action::Forward(0)));
    let reply = answer_for(&req, 0x7777, &[300, 60]);
    match r.on_upstream_reply(&req, 0, Some(reply), 1000) {
        Action::Respond(m) => {
            assert_eq!(m.header.id, 0x0101);
            assert_eq!(m.answer.len(), 2);
        }
        other => panic!("unexpected {:?}", other),
    }
    let again = query(0x0202, &["EXAMPLE", "org"]);
    match r.begin(&again, 1059) {
        Action::Respond(m) => {
            assert_eq!(m.header.id, 0x0202);
            assert_eq!(m.answer.len(), 2);
            assert_eq!(m.answer[0].rdata, vec![192, 0, 2, 1]);
        }
        other => panic!("unexpected {:?}", other),
    }
    // The smallest TTL was 60 seconds: at 1060 the entry has expired.
    assert!(matches!(r.begin(&again, 1060), Action::Forward(0)));
}

#[test]
fn upstream_failover_moves_forward() {
    let mut r = resolver(3, true, Blocklist::new(), BlockPolicy::Drop);
    let req = query(0x0A0A, &["example", "net"]);
    assert!(matches!(r.begin(&req, 0), Action::Forward(0)));
    assert!(matches!(r.on_upstream_reply(&req, 0, None, 0), Action::Forward(1)));
    let reply = answer_for(&req, 9, &[30]);
    match r.on_upstream_reply(&req, 1, Some(reply), 0) {
        Action::Respond(m) => {
            assert_eq!(m.header.id, 0x0A0A);
            assert_eq!(m.answer[0].ttl, 30);
        }
        other => panic!("unexpected {:?}", other),
    }
    assert!(!r.upstreams().server(0).healthy);
    assert!(r.upstreams().server(1).healthy);
}

#[test]
fn all_upstreams_failing_gives_not_found() {
    let mut r = resolver(2, true, Blocklist::new(), BlockPolicy::Drop);
    let req = query(0x4242, &["nowhere", "test"]);
    assert!(matches!(r.on_upstream_reply(&req, 0, None, 0), Action::Forward(1)));
    match r.on_upstream_reply(&req, 1, None, 0) {
        Action::Respond(m) => {
            assert_eq!(m.header.rcode, RCode::NXDOMAIN);
            assert_eq!(m.header.id, 0x4242);
            assert_eq!(m.question[0].qname, req.question[0].qname);
        }
        other => panic!("unexpected {:?}", other),
    }
}

#[test]
fn no_upstreams_gives_not_found() {
    let mut r = resolver(0, true, Blocklist::new(), BlockPolicy::Drop);
    match r.begin(&query(1, &["a"]), 0) {
        Action::Respond(m) => assert_eq!(m.header.rcode, RCode::NXDOMAIN),
        other => panic!("unexpected {:?}", other),
    }
}

#[test]
fn upstreams_keep_order_and_protocol() {
    let u = Upstreams::new(&[upstream("192.0.2.1", "udp"), upstream("192.0.2.2", "tcp")]);
    assert_eq!(u.count(), 2);
    assert_eq!(u.server(0).address, "192.0.2.1");
    assert_eq!(u.server(0).protocol, Transport::Udp);
    assert_eq!(u.server(1).protocol, Transport::Tcp);
    assert!(matches!(u.start(), UpstreamStep::Send(0)));
    let none = Upstreams::new(&[]);
    assert!(matches!(none.start(), UpstreamStep::Failed));
}

#[test]
fn cache_expires_entries() {
    let mut c = Cache::new(&CacheSettings { enabled: true, size: 4 });
    let req = query(1, &["a", "b"]);
    c.put(key(&["a", "b"]), answer_for(&req, 1, &[10]), 10, 100);
    assert!(c.query(&key(&["A", "B"]), 109).is_some());
    assert!(c.query(&key(&["a", "b"]), 110).is_none());
    assert!(c.query(&key(&["a", "b"]), 105).is_none());
}

#[test]
fn cache_evicts_least_recently_used() {
    let mut c = Cache::new(&CacheSettings { enabled: true, size: 2 });
    let req = query(1, &["x"]);
    c.put(key(&["one"]), answer_for(&req, 1, &[100]), 100, 0);
    c.put(key(&["two"]), answer_for(&req, 2, &[100]), 100, 0);
    assert!(c.query(&key(&["one"]), 1).is_some());
    c.put(key(&["three"]), answer_for(&req, 3, &[100]), 100, 2);
    assert!(c.query(&key(&["two"]), 3).is_none());
    assert!(c.query(&key(&["one"]), 3).is_some());
    assert_eq!(c.query(&key(&["three"]), 3).unwrap().header.id, 3);
}

#[test]
fn cache_replaces_same_key() {
    let mut c = Cache::new(&CacheSettings { enabled: true, size: 1 });
    let req = query(1, &["x"]);
    c.put(key(&["k"]), answer_for(&req, 1, &[100]), 100, 0);
    c.put(key(&["K"]), answer_for(&req, 2, &[100]), 100, 0);
    assert_eq!(c.query(&key(&["k"]), 1).unwrap().header.id, 2);
}

#[test]
fn disabled_cache_always_misses() {
    let mut c = Cache::new(&CacheSettings { enabled: false, size: 4 });
    let req = query(1, &["x"]);
    c.put(key(&["x"]), answer_for(&req, 1, &[100]), 100, 0);
    assert!(c.query(&key(&["x"]), 1).is_none());
    let mut r = resolver(1, false, Blocklist::new(), BlockPolicy::Drop);
    r.on_upstream_reply(&req, 0, Some(answer_for(&req, 5, &[100])), 0);
    assert!(matches!(r.begin(&req, 1), Action::Forward(0)));
}

#[test]
fn answer_without_records_is_not_cached() {
    let mut r = resolver(1, true, Blocklist::new(), BlockPolicy::Drop);
    let req = query(1, &["empty", "test"]);
    let reply = answer_for(&req, 1, &[]);
    assert!(matches!(r.on_upstream_reply(&req, 0, Some(reply), 0), Action::Respond(_)));
    assert!(matches!(r.begin(&req, 1), Action::Forward(0)));
}

#[test]
fn relayed_answers_are_not_authoritative() {
    let mut r = resolver(1, true, Blocklist::new(), BlockPolicy::Drop);
    let req = query(0x3333, &["auth", "test"]);
    let mut reply = answer_for(&req, 1, &[100]);
    reply.header.aa = 1;
    match r.on_upstream_reply(&req, 0, Some(reply), 0) {
        Action::Respond(m) => {
            assert_eq!(m.header.aa, 0);
            assert_eq!(m.header.id, 0x3333);
        }
        other => panic!("unexpected {:?}", other),
    }
    match r.begin(&query(0x4444, &["auth", "test"]), 1) {
        Action::Respond(m) => {
            assert_eq!(m.header.aa, 0);
            assert_eq!(m.header.id, 0x4444);
        }
        other => panic!("unexpected {:?}", other),
    }
}

#[test]
fn block_policy_names() {
    assert_eq!(BlockPolicy::from_name(&"drop".to_string()), Some(BlockPolicy::Drop));
    assert_eq!(BlockPolicy::from_name(&"nxdomain".to_string()), Some(BlockPolicy::NxDomain));
    assert_eq!(BlockPolicy::from_name(&"refused".to_string()), Some(BlockPolicy::Refused));
    assert_eq!(BlockPolicy::from_name(&"silence".to_string()), None);
}
