use hptp::addr::{IpAddress, SocketAddress};
use hptp::dns_resolver::{DnsResolver, RecordKind, ResolveStep};

#[test]
fn empty_cache_needs_lookup() {
    let r = DnsResolver::new();
    assert!(r.cache_lookup("example.com", RecordKind::A, 0).is_none());
    assert!(matches!(
        r.resolve_step("example.com", 80, 0),
        ResolveStep::NeedsLookup
    ));
}

#[test]
fn completed_lookup_serves_until_expiry() {
    let mut r = DnsResolver::new();
    let v4 = vec![IpAddress::V4(0x01020304)];
    let v6 = vec![IpAddress::V6(0xfe80_0000_0000_0000_0000_0000_0000_0001)];
    let targets = r.complete_lookup("example.com", &v4, &v6, 5000, 1000, 80);
    assert_eq!(
        targets,
        vec![
            SocketAddress { ip: v4[0], port: 80 },
            SocketAddress { ip: v6[0], port: 80 },
        ]
    );
    // while live, the v4 line answers first
    match r.resolve_step("example.com", 443, 5999) {
        ResolveStep::Cached(ts) => assert_eq!(ts, vec![SocketAddress { ip: v4[0], port: 443 }]),
        ResolveStep::NeedsLookup => panic!("live line must be served"),
    }
    // an expired line is never served: expiry is 1000 + 5000
    assert!(matches!(
        r.resolve_step("example.com", 443, 6000),
        ResolveStep::NeedsLookup
    ));
    // other names stay misses
    assert!(matches!(
        r.resolve_step("other.example", 443, 2000),
        ResolveStep::NeedsLookup
    ));
}

#[test]
fn v6_only_answers_serve_the_v6_line() {
    let mut r = DnsResolver::new();
    let v6 = vec![IpAddress::V6(0x2001_0db8_0000_0000_0000_0000_0000_0001)];
    let targets = r.complete_lookup("six.example", &Vec::new(), &v6, 1000, 0, 8080);
    assert_eq!(targets.len(), 1);
    // the v4 line is live but empty; it must not hide the v6 answer
    match r.resolve_step("six.example", 8080, 500) {
        ResolveStep::Cached(ts) => {
            assert_eq!(ts, vec![SocketAddress { ip: v6[0], port: 8080 }])
        }
        ResolveStep::NeedsLookup => panic!("the v6 line is live and holds an address"),
    }
}

#[test]
fn empty_answers_are_never_served() {
    // a lookup that resolved nothing leaves no servable line behind
    let mut r = DnsResolver::new();
    let targets = r.complete_lookup("void.example", &Vec::new(), &Vec::new(), 1000, 0, 80);
    assert!(targets.is_empty());
    assert!(matches!(
        r.resolve_step("void.example", 80, 500),
        ResolveStep::NeedsLookup
    ));
}

#[test]
fn at_least_one_target_when_lookup_resolves() {
    let mut r = DnsResolver::new();
    let v4 = vec![IpAddress::V4(1), IpAddress::V4(2)];
    let targets = r.complete_lookup("two.example", &v4, &Vec::new(), 1000, 0, 53);
    assert_eq!(targets.len(), 2);
    assert!(targets.len() >= 1);
}

#[test]
fn reinsertion_replaces_the_line() {
    let mut r = DnsResolver::new();
    let first = vec![IpAddress::V4(1)];
    let second = vec![IpAddress::V4(2)];
    r.complete_lookup("example.com", &first, &Vec::new(), 1000, 0, 80);
    r.complete_lookup("example.com", &second, &Vec::new(), 1000, 100, 80);
    match r.resolve_step("example.com", 80, 200) {
        ResolveStep::Cached(ts) => {
            assert_eq!(ts, vec![SocketAddress { ip: IpAddress::V4(2), port: 80 }])
        }
        ResolveStep::NeedsLookup => panic!("the fresh line is live"),
    }
}

#[test]
fn ttl_saturates_instead_of_overflowing() {
    let mut r = DnsResolver::new();
    let v4 = vec![IpAddress::V4(9)];
    r.complete_lookup("forever.example", &v4, &Vec::new(), u64::MAX, u64::MAX - 5, 80);
    assert!(matches!(
        r.resolve_step("forever.example", 80, u64::MAX - 1),
        ResolveStep::Cached(_)
    ));
}
