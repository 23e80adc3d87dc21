//! The forwarding pipeline's decisions: which protocol families to serve,
//! which wildcard addresses to bind for a port set, whether an accepted
//! connection passes the filters, and the per-connection state machine that
//! orders its stages.

use vstd::prelude::*;

use crate::addr::{IpAddress, SocketAddress};
use crate::filter::SocketAddrFilter;

verus! {

/// Which address families the proxy listens on.
#[derive(Clone, Copy, PartialEq, Eq, Structural, Debug)]
pub enum AllowProtocol {
    Ipv4,
    Ipv6,
    Both,
}

/// What the two protocol switches mean: both off falls back to v4 only.
pub open spec fn spec_allow_protocol(ipv4: bool, ipv6: bool) -> AllowProtocol {
    if ipv6 {
        if ipv4 {
            AllowProtocol::Both
        } else {
            AllowProtocol::Ipv6
        }
    } else {
        AllowProtocol::Ipv4
    }
}

pub fn allow_protocol(ipv4: bool, ipv6: bool) -> (r: AllowProtocol)
    ensures
        r == spec_allow_protocol(ipv4, ipv6),
{
    match (ipv4, ipv6) {
        (false, false) | (true, false) => AllowProtocol::Ipv4,
        (false, true) => AllowProtocol::Ipv6,
        (true, true) => AllowProtocol::Both,
    }
}

/// The wildcard address of each family.
pub open spec fn unspecified_v4() -> IpAddress {
    IpAddress::V4(0)
}

pub open spec fn unspecified_v6() -> IpAddress {
    IpAddress::V6(0)
}

/// The addresses to bind: one wildcard per port for a single family, and
/// for dual-stack both families per port, v4 first, in port order.
pub open spec fn spec_bind_addresses(ports: Seq<u16>, allow: AllowProtocol) -> Seq<SocketAddress> {
    match allow {
        AllowProtocol::Ipv4 => Seq::new(
            ports.len(),
            |i: int| SocketAddress { ip: unspecified_v4(), port: ports[i] },
        ),
        AllowProtocol::Ipv6 => Seq::new(
            ports.len(),
            |i: int| SocketAddress { ip: unspecified_v6(), port: ports[i] },
        ),
        AllowProtocol::Both => Seq::new(
            ports.len() * 2,
            |i: int|
                SocketAddress {
                    ip: if i % 2 == 0 {
                        unspecified_v4()
                    } else {
                        unspecified_v6()
                    },
                    port: ports[i / 2],
                },
        ),
    }
}

/// Computes the bind list for the configured ports and families.
pub fn bind_addresses(ports: &Vec<u16>, allow: AllowProtocol) -> (r: Vec<SocketAddress>)
    ensures
        r@ == spec_bind_addresses(ports@, allow),
{
    let ghost target = spec_bind_addresses(ports@, allow);
    let mut out: Vec<SocketAddress> = Vec::new();
    match allow {
        AllowProtocol::Ipv4 => {
            let mut i: usize = 0;
            while i < ports.len()
                invariant
                    0 <= i <= ports@.len(),
                    target == spec_bind_addresses(ports@, AllowProtocol::Ipv4),
                    out@ == target.subrange(0, i as int),
                decreases ports@.len() - i,
            {
                out.push(SocketAddress { ip: IpAddress::V4(0), port: ports[i] });
                proof {
                    assert(out@ =~= target.subrange(0, i as int + 1));
                }
                i += 1;
            }
        },
        AllowProtocol::Ipv6 => {
            let mut i: usize = 0;
            while i < ports.len()
                invariant
                    0 <= i <= ports@.len(),
                    target == spec_bind_addresses(ports@, AllowProtocol::Ipv6),
                    out@ == target.subrange(0, i as int),
                decreases ports@.len() - i,
            {
                out.push(SocketAddress { ip: IpAddress::V6(0), port: ports[i] });
                proof {
                    assert(out@ =~= target.subrange(0, i as int + 1));
                }
                i += 1;
            }
        },
        AllowProtocol::Both => {
            let mut i: usize = 0;
            while i < ports.len()
                invariant
                    0 <= i <= ports@.len(),
                    target == spec_bind_addresses(ports@, AllowProtocol::Both),
                    out@ == target.subrange(0, 2 * i as int),
                decreases ports@.len() - i,
            {
                let p = ports[i];
                out.push(SocketAddress { ip: IpAddress::V4(0), port: p });
                out.push(SocketAddress { ip: IpAddress::V6(0), port: p });
                proof {
                    assert(out@ =~= target.subrange(0, 2 * (i as int + 1)));
                }
                i += 1;
            }
        },
    }
    proof {
        assert(out@ =~= target);
    }
    out
}

/// The filter decision for an accepted connection: the peer's address
/// together with the local port it arrived on.
pub fn connection_allowed(filter: &SocketAddrFilter, peer_ip: IpAddress, local_port: u16) -> (r:
    bool)
    requires
        filter.wf(),
    ensures
        r == (filter.spec_port_filter().allowed_spec(local_port)
            && filter.spec_ip_filter().allowed_spec(peer_ip)),
{
    filter.allowed(SocketAddress { ip: peer_ip, port: local_port })
}

/// A connection's stage.
#[derive(Clone, Copy, PartialEq, Eq, Structural, Debug)]
pub enum ConnState {
    /// Just accepted; the filter has not spoken yet.
    Accepted,
    /// Refused by the filter: dropped without further work.
    Dropped,
    /// Waiting for the upstream targets.
    Resolving,
    /// Connecting to an upstream target, under the connect timeout.
    Connecting,
    /// Relaying bytes in both directions.
    Relaying,
    /// Both directions finished cleanly.
    Completed,
    /// Some stage failed; the connection is abandoned.
    Failed,
}

/// What the world reports back to the state machine.
#[derive(Clone, Copy, PartialEq, Eq, Structural, Debug)]
pub enum ConnEvent {
    /// The filter's verdict on (peer address, local port).
    FilterDecision(bool),
    /// Upstream targets are known.
    Resolved,
    /// Resolution failed.
    ResolveFailed,
    /// An upstream connection stands.
    Connected,
    /// Connecting failed or timed out.
    ConnectFailed,
    /// Both relay directions reached EOF and were shut down.
    RelayFinished,
    /// The relay broke on an I/O error.
    RelayFailed,
}

/// The machine's transitions; `None` for an event that cannot occur in the
/// state.  Stages run in strict order, and each failure is absorbed by the
/// connection alone.
pub open spec fn conn_next(s: ConnState, e: ConnEvent) -> Option<ConnState> {
    match (s, e) {
        (ConnState::Accepted, ConnEvent::FilterDecision(pass)) => Some(
            if pass {
                ConnState::Resolving
            } else {
                ConnState::Dropped
            },
        ),
        (ConnState::Resolving, ConnEvent::Resolved) => Some(ConnState::Connecting),
        (ConnState::Resolving, ConnEvent::ResolveFailed) => Some(ConnState::Failed),
        (ConnState::Connecting, ConnEvent::Connected) => Some(ConnState::Relaying),
        (ConnState::Connecting, ConnEvent::ConnectFailed) => Some(ConnState::Failed),
        (ConnState::Relaying, ConnEvent::RelayFinished) => Some(ConnState::Completed),
        (ConnState::Relaying, ConnEvent::RelayFailed) => Some(ConnState::Failed),
        _ => None,
    }
}

/// A state no event leaves.
pub open spec fn conn_terminal(s: ConnState) -> bool {
    s == ConnState::Dropped || s == ConnState::Completed || s == ConnState::Failed
}

/// Advances a connection by one event.
pub fn conn_step(s: ConnState, e: ConnEvent) -> (r: ConnState)
    requires
        conn_next(s, e) is Some,
    ensures
        Some(r) == conn_next(s, e),
{
    match (s, e) {
        (ConnState::Accepted, ConnEvent::FilterDecision(pass)) => if pass {
            ConnState::Resolving
        } else {
            ConnState::Dropped
        },
        (ConnState::Resolving, ConnEvent::Resolved) => ConnState::Connecting,
        (ConnState::Resolving, ConnEvent::ResolveFailed) => ConnState::Failed,
        (ConnState::Connecting, ConnEvent::Connected) => ConnState::Relaying,
        (ConnState::Connecting, ConnEvent::ConnectFailed) => ConnState::Failed,
        (ConnState::Relaying, ConnEvent::RelayFinished) => ConnState::Completed,
        (ConnState::Relaying, ConnEvent::RelayFailed) => ConnState::Failed,
        _ => unreached(),
    }
}

/// Once a connection is dropped, completed or failed, no event moves it:
/// per-connection outcomes are final and never escalate into another stage.
pub proof fn lemma_terminal_absorbs(s: ConnState, e: ConnEvent)
    requires
        conn_terminal(s),
    ensures
        conn_next(s, e) is None,
{
}

/// Hard bound on one upstream connect attempt, in milliseconds.
pub const CONNECT_TIMEOUT_MS: u64 = 15000;

} // verus!
