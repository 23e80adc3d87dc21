use hptp::addr::{IpAddress, SocketAddress};
use hptp::host::{Host, TargetsStep};

#[test]
fn ip_works() {
    // v6 addresses round-trip through the group constructor into a static host
    let cases: [(u16, u16, u16, u16, u16, u16, u16, u16); 4] = [
        (0, 0, 0, 0, 0, 0, 0, 1),
        (0, 0, 0, 0, 0, 0, 0, 0),
        (1, 1, 1, 1, 1, 1, 1, 1),
        (12, 1, 221, 91, 61, 881, 1, 8881),
    ];
    for (g0, g1, g2, g3, g4, g5, g6, g7) in cases {
        let ip = IpAddress::v6_from_groups(g0, g1, g2, g3, g4, g5, g6, g7);
        let host = Host::IpAddr(ip);
        assert!(matches!(host, Host::IpAddr(h) if h == ip));
    }
    assert_eq!(
        IpAddress::v6_from_groups(0, 0, 0, 0, 0, 0, 0, 1),
        IpAddress::V6(1)
    );
}

#[test]
fn name_works() {
    for name in ["example.com", "foo.bar", "vrtgs.xyz", "www.youtube.com", "docs.rs"] {
        let host = Host::parse(name).unwrap();
        match &host {
            Host::Host(_, _) => {}
            Host::IpAddr(_) => panic!("a hostname must give a dynamic host"),
        }
        assert_eq!(host.as_string(), name);
    }
}

#[test]
fn v4_octet_round_trip() {
    let ip = IpAddress::v4_from_octets(192, 168, 1, 10);
    assert_eq!(ip, IpAddress::V4(0xc0a8010a));
    assert_eq!(IpAddress::v4_octets(0xc0a8010a), (192, 168, 1, 10));
}

#[test]
fn parse_v4_literal_gives_static_host() {
    let host = Host::parse("127.0.0.1").unwrap();
    match &host {
        Host::IpAddr(ip) => assert_eq!(*ip, IpAddress::V4(0x7f000001)),
        Host::Host(_, _) => panic!("a literal must give a static host"),
    }
    // whitespace is trimmed first
    let host = Host::parse("  10.0.0.1\t").unwrap();
    assert!(matches!(host, Host::IpAddr(ip) if ip == IpAddress::V4(0x0a000001)));
}

#[test]
fn parse_v6_literal_gives_static_host() {
    let host = Host::parse("::1").unwrap();
    assert!(matches!(host, Host::IpAddr(ip) if ip == IpAddress::V6(1)));
    let host = Host::parse("2001:db8::ff").unwrap();
    let expected: u128 = 0x2001_0db8_0000_0000_0000_0000_0000_00ff;
    assert!(matches!(host, Host::IpAddr(ip) if ip == IpAddress::V6(expected)));
    let host = Host::parse("1:2:3:4:5:6:7:8").unwrap();
    let expected: u128 = 0x0001_0002_0003_0004_0005_0006_0007_0008;
    assert!(matches!(host, Host::IpAddr(ip) if ip == IpAddress::V6(expected)));
}

#[test]
fn parse_v6_embedded_quad_gives_static_host() {
    let host = Host::parse("::ffff:192.0.2.128").unwrap();
    let expected: u128 = 0x0000_0000_0000_0000_0000_ffff_c000_0280;
    assert!(matches!(host, Host::IpAddr(ip) if ip == IpAddress::V6(expected)));
    let host = Host::parse("64:ff9b::192.0.2.33").unwrap();
    let expected: u128 = 0x0064_ff9b_0000_0000_0000_0000_c000_0221;
    assert!(matches!(host, Host::IpAddr(ip) if ip == IpAddress::V6(expected)));
    let host = Host::parse("1:2:3:4:5:6:10.0.0.1").unwrap();
    let expected: u128 = 0x0001_0002_0003_0004_0005_0006_0a00_0001;
    assert!(matches!(host, Host::IpAddr(ip) if ip == IpAddress::V6(expected)));
}

#[test]
fn static_host_targets_need_no_lookup() {
    // a static host always answers immediately with exactly one target
    let host = Host::parse("127.0.0.1").unwrap();
    match host.to_hosts_step(9001, 0) {
        TargetsStep::Ready(ts) => {
            assert_eq!(ts.len(), 1);
            assert_eq!(
                ts[0],
                SocketAddress { ip: IpAddress::V4(0x7f000001), port: 9001 }
            );
        }
        TargetsStep::NeedsLookup => panic!("a static host must not ask for a lookup"),
    }
}

#[test]
fn dynamic_host_lookup_cycle() {
    let mut host = Host::parse("example.com").unwrap();
    // nothing cached yet
    assert!(matches!(host.to_hosts_step(80, 1000), TargetsStep::NeedsLookup));
    // a completed lookup feeds the cache and yields both families
    let v4 = vec![IpAddress::V4(0x5db8d822)];
    let v6 = vec![IpAddress::V6(0x2606_2800_0220_0001_0248_1893_25c8_1946)];
    let targets = host.complete_lookup(&v4, &v6, 5000, 1000, 80);
    assert_eq!(targets.len(), 2);
    assert_eq!(targets[0], SocketAddress { ip: v4[0], port: 80 });
    assert_eq!(targets[1], SocketAddress { ip: v6[0], port: 80 });
    // served from cache while live, the v4 line first
    match host.to_hosts_step(81, 3000) {
        TargetsStep::Ready(ts) => {
            assert_eq!(ts, vec![SocketAddress { ip: v4[0], port: 81 }]);
        }
        TargetsStep::NeedsLookup => panic!("a live cache line must be served"),
    }
    // expired at the boundary: entries written at 1000 with ttl 5000 die at 6000
    assert!(matches!(host.to_hosts_step(80, 6000), TargetsStep::NeedsLookup));
}

#[test]
fn v6_only_host_keeps_forwarding() {
    // a host that resolves only to v6 addresses serves them for the whole TTL
    let mut host = Host::parse("six.example").unwrap();
    let v6 = vec![IpAddress::V6(0x2001_0db8_0000_0000_0000_0000_0000_0002)];
    let targets = host.complete_lookup(&Vec::new(), &v6, 5000, 1000, 443);
    assert_eq!(targets, vec![SocketAddress { ip: v6[0], port: 443 }]);
    match host.to_hosts_step(443, 5999) {
        TargetsStep::Ready(ts) => {
            assert_eq!(ts, vec![SocketAddress { ip: v6[0], port: 443 }]);
        }
        TargetsStep::NeedsLookup => panic!("the v6 line is live and holds an address"),
    }
}

#[test]
fn name_is_normalised_not_echoed() {
    // the DNS library lower-cases names; the host keeps the canonical form
    let host = Host::parse("Example.COM").unwrap();
    assert_eq!(host.as_string(), "example.com");
}

#[test]
fn display_quotes_dynamic_hosts_only() {
    let stat = Host::parse("127.0.0.1").unwrap();
    assert_eq!(stat.display_string(), "127.0.0.1");
    let dynamic = Host::parse("example.com").unwrap();
    assert_eq!(dynamic.display_string(), "\"example.com\"");
}

#[test]
fn invalid_host_is_rejected() {
    // a label longer than 63 octets is not a valid DNS name
    let long = format!("{}.com", "a".repeat(64));
    assert!(Host::parse(&long).is_err());
}

#[test]
fn try_insert_with_fills_only_empty_slots() {
    let mut slot: Option<u32> = None;
    assert!(hptp::host::try_insert_with(&mut slot, || 7));
    assert_eq!(slot, Some(7));
    assert!(!hptp::host::try_insert_with(&mut slot, || 9));
    assert_eq!(slot, Some(7));
}
