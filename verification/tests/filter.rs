use hptp::addr::{IpAddress, SocketAddress};
use hptp::filter::{Filter, FilterMode, SocketAddrFilter};

#[test]
fn small_allow_list_matches_membership() {
    let f: Filter<u16> = Filter::new(&[80, 443, 22], FilterMode::WhiteList);
    for p in 0..=u16::MAX {
        let expected = p == 80 || p == 443 || p == 22;
        assert_eq!(f.allowed(p), expected);
    }
}

#[test]
fn small_deny_list_inverts_membership() {
    let f: Filter<u16> = Filter::new(&[80, 443, 22], FilterMode::BlackList);
    for p in 0..=u16::MAX {
        let expected = !(p == 80 || p == 443 || p == 22);
        assert_eq!(f.allowed(p), expected);
    }
}

#[test]
fn big_representation_answers_identically() {
    // enough items to cross the threshold into the table form
    let items: Vec<u16> = (1000..1020).collect();
    let allow: Filter<u16> = Filter::new(&items, FilterMode::WhiteList);
    let deny: Filter<u16> = Filter::new(&items, FilterMode::BlackList);
    for p in 0..3000u16 {
        let member = (1000..1020).contains(&p);
        assert_eq!(allow.allowed(p), member);
        assert_eq!(deny.allowed(p), !member);
    }
}

#[test]
fn threshold_boundary_behaves_alike() {
    let eight: Vec<u16> = (1..=8).collect();
    let nine: Vec<u16> = (1..=9).collect();
    let f8: Filter<u16> = Filter::new(&eight, FilterMode::WhiteList);
    let f9: Filter<u16> = Filter::new(&nine, FilterMode::WhiteList);
    for p in 0..20u16 {
        assert_eq!(f8.allowed(p), (1..=8).contains(&p));
        assert_eq!(f9.allowed(p), (1..=9).contains(&p));
    }
}

#[test]
fn duplicates_collapse_and_shrink_back() {
    // many duplicated items cross the threshold going in, then shrink back
    let mut items: Vec<u16> = Vec::new();
    for _ in 0..6 {
        items.extend_from_slice(&[5, 6, 7]);
    }
    assert!(items.len() > 8);
    let f: Filter<u16> = Filter::new(&items, FilterMode::WhiteList);
    for p in 0..20u16 {
        assert_eq!(f.allowed(p), p == 5 || p == 6 || p == 7);
    }
}

#[test]
fn ip_filter_spans_both_families() {
    let items = [IpAddress::V4(0x0a000001), IpAddress::V6(1)];
    let f: Filter<IpAddress> = Filter::new(&items, FilterMode::WhiteList);
    assert!(f.allowed(IpAddress::V4(0x0a000001)));
    assert!(f.allowed(IpAddress::V6(1)));
    assert!(!f.allowed(IpAddress::V4(0x0a000002)));
    assert!(!f.allowed(IpAddress::V6(2)));
    // a v4 address and the v6 address with the same raw value differ
    assert!(!f.allowed(IpAddress::V6(0x0a000001)));
    assert!(!f.allowed(IpAddress::V4(1)));
}

#[test]
fn socket_filter_requires_both_sides() {
    let ports: Filter<u16> = Filter::new(&[9001, 9002], FilterMode::WhiteList);
    let ips: Filter<IpAddress> =
        Filter::new(&[IpAddress::V4(0x0a000001)], FilterMode::BlackList);
    let f = SocketAddrFilter::new(ips, ports);
    let good_ip = IpAddress::V4(0x7f000001);
    let bad_ip = IpAddress::V4(0x0a000001);
    assert!(f.allowed(SocketAddress { ip: good_ip, port: 9001 }));
    assert!(f.allowed(SocketAddress { ip: good_ip, port: 9002 }));
    assert!(!f.allowed(SocketAddress { ip: good_ip, port: 9003 }));
    assert!(!f.allowed(SocketAddress { ip: bad_ip, port: 9001 }));
}
