use hptp::addr::{IpAddress, SocketAddress};
use hptp::filter::{Filter, FilterMode, SocketAddrFilter};
use hptp::pipeline::{
    allow_protocol, bind_addresses, conn_step, connection_allowed, AllowProtocol, ConnEvent,
    ConnState, CONNECT_TIMEOUT_MS,
};

#[test]
fn protocol_switches_resolve_as_documented() {
    assert_eq!(allow_protocol(false, false), AllowProtocol::Ipv4);
    assert_eq!(allow_protocol(true, false), AllowProtocol::Ipv4);
    assert_eq!(allow_protocol(false, true), AllowProtocol::Ipv6);
    assert_eq!(allow_protocol(true, true), AllowProtocol::Both);
}

#[test]
fn bind_list_single_family() {
    let ports = vec![9001u16, 9002];
    let v4 = bind_addresses(&ports, AllowProtocol::Ipv4);
    assert_eq!(
        v4,
        vec![
            SocketAddress { ip: IpAddress::V4(0), port: 9001 },
            SocketAddress { ip: IpAddress::V4(0), port: 9002 },
        ]
    );
    let v6 = bind_addresses(&ports, AllowProtocol::Ipv6);
    assert_eq!(
        v6,
        vec![
            SocketAddress { ip: IpAddress::V6(0), port: 9001 },
            SocketAddress { ip: IpAddress::V6(0), port: 9002 },
        ]
    );
}

#[test]
fn bind_list_dual_stack_binds_twice_per_port() {
    let ports = vec![9001u16, 9002];
    let both = bind_addresses(&ports, AllowProtocol::Both);
    assert_eq!(
        both,
        vec![
            SocketAddress { ip: IpAddress::V4(0), port: 9001 },
            SocketAddress { ip: IpAddress::V6(0), port: 9001 },
            SocketAddress { ip: IpAddress::V4(0), port: 9002 },
            SocketAddress { ip: IpAddress::V6(0), port: 9002 },
        ]
    );
}

#[test]
fn connection_happy_path_in_order() {
    let mut s = ConnState::Accepted;
    s = conn_step(s, ConnEvent::FilterDecision(true));
    assert_eq!(s, ConnState::Resolving);
    s = conn_step(s, ConnEvent::Resolved);
    assert_eq!(s, ConnState::Connecting);
    s = conn_step(s, ConnEvent::Connected);
    assert_eq!(s, ConnState::Relaying);
    s = conn_step(s, ConnEvent::RelayFinished);
    assert_eq!(s, ConnState::Completed);
}

#[test]
fn connection_drop_and_failure_paths() {
    assert_eq!(
        conn_step(ConnState::Accepted, ConnEvent::FilterDecision(false)),
        ConnState::Dropped
    );
    assert_eq!(
        conn_step(ConnState::Resolving, ConnEvent::ResolveFailed),
        ConnState::Failed
    );
    assert_eq!(
        conn_step(ConnState::Connecting, ConnEvent::ConnectFailed),
        ConnState::Failed
    );
    assert_eq!(
        conn_step(ConnState::Relaying, ConnEvent::RelayFailed),
        ConnState::Failed
    );
}

#[test]
fn filter_decision_uses_peer_ip_and_local_port() {
    let ports: Filter<u16> = Filter::new(&[9001], FilterMode::WhiteList);
    let ips: Filter<IpAddress> =
        Filter::new(&[IpAddress::V4(0x0a000001)], FilterMode::BlackList);
    let f = SocketAddrFilter::new(ips, ports);
    assert!(connection_allowed(&f, IpAddress::V4(0x7f000001), 9001));
    assert!(!connection_allowed(&f, IpAddress::V4(0x7f000001), 9002));
    assert!(!connection_allowed(&f, IpAddress::V4(0x0a000001), 9001));
}

#[test]
fn connect_timeout_is_fifteen_seconds() {
    assert_eq!(CONNECT_TIMEOUT_MS, 15_000);
}
