//! The upstream target: a literal IP address, served without any network
//! traffic, or a DNS name paired with its own caching resolver.

use vstd::prelude::*;

use crate::addr::{parse_ipv4, parse_ipv6, spec_ip_display, spec_parse_ipv4, spec_parse_ipv6, IpAddress, SocketAddress};
use crate::dns_resolver::{expiry_at, with_port_spec, DnsResolver, RecordKind, ResolveStep};
use crate::text::{chars_of, push_char, spec_trim, trim_indices};

verus! {

/// Error: the text is neither an IP literal nor a valid DNS name.
#[derive(Debug)]
pub struct HostParseError;

/// What the DNS library's name parser makes of a string: the accepted
/// name's canonical text, or nothing when the string is not a valid name.
pub uninterp spec fn dns_name_of(s: Seq<char>) -> Option<Seq<char>>;

/// Relies on hickory_proto's `Name::from_str` (reached through
/// hickory_resolver) and `Name`'s `Display`: together they validate a DNS
/// name and give back its canonical text, which depends on the input string
/// alone.
#[verifier::external_body]
fn parse_dns_name(s: &str) -> (r: Option<String>)
    ensures
        match r {
            Some(n) => dns_name_of(s@) == Some(n@),
            None => dns_name_of(s@) is None,
        },
{
    <hickory_resolver::proto::rr::Name as std::str::FromStr>::from_str(s).ok().map(|n| n.to_string())
}

/// Fills the slot from `f` only when it is empty; reports whether this
/// call did the filling.
pub fn try_insert_with<T, F: FnOnce() -> T>(slot: &mut Option<T>, f: F) -> (inserted: bool)
    requires
        (*old(slot)) is None ==> f.requires(()),
    ensures
        inserted == ((*old(slot)) is None),
        (*old(slot)) is Some ==> *final (slot) == *old(slot),
        (*old(slot)) is None ==> (*final (slot) matches Some(v) && f.ensures((), v)),
{
    match slot {
        Some(_) => false,
        None => {
            *slot = Some(f());
            true
        },
    }
}

/// An upstream target.
pub enum Host {
    /// A literal address: resolution is immediate and local.
    IpAddr(IpAddress),
    /// A name and the caching resolver that serves it.
    Host(String, DnsResolver),
}

/// What one resolution step yields: the targets, or the request to perform
/// a fresh lookup for the dynamic host's name.
pub enum TargetsStep {
    Ready(Vec<SocketAddress>),
    NeedsLookup,
}

impl Host {
    /// The dynamic host's resolver cache is well formed.
    pub open spec fn wf(&self) -> bool {
        match self {
            Host::Host(_, res) => res.wf(),
            Host::IpAddr(_) => true,
        }
    }

    /// Parses the upstream-host argument: a literal address, either
    /// family, gives a static host; otherwise the text must be a valid DNS
    /// name and gives a dynamic host with a fresh, empty resolver cache.
    pub fn parse(s: &str) -> (r: Result<Host, HostParseError>)
        ensures
            ({
                let t = spec_trim(s@);
                &&& (spec_parse_ipv4(t) matches Some(v) ==> (r matches Ok(h) && h == Host::IpAddr(
                    IpAddress::V4(v),
                )))
                &&& (spec_parse_ipv4(t) is None ==> (spec_parse_ipv6(t) matches Some(v) ==> (r
                    matches Ok(h) && h == Host::IpAddr(IpAddress::V6(v)))))
                &&& (spec_parse_ipv4(t) is None && spec_parse_ipv6(t) is None ==> (dns_name_of(t)
                    matches Some(n) ==> (r matches Ok(h) && (h matches Host::Host(nm, res) && nm@
                    == n && res.wf() && res.entries_seq().len() == 0))))
                &&& (spec_parse_ipv4(t) is None && spec_parse_ipv6(t) is None && dns_name_of(t)
                    is None ==> r is Err)
            }),
            r matches Ok(h) ==> h.wf(),
    {
        let cs = chars_of(s);
        let n = cs.len();
        proof {
            assert(cs@.subrange(0, n as int) =~= cs@);
        }
        let (lo, hi) = trim_indices(&cs, 0, n);
        if let Some(v) = parse_ipv4(&cs, lo, hi) {
            return Ok(Host::IpAddr(IpAddress::V4(v)));
        }
        if let Some(v) = parse_ipv6(&cs, lo, hi) {
            return Ok(Host::IpAddr(IpAddress::V6(v)));
        }
        let trimmed = s.substring_char(lo, hi);
        match parse_dns_name(trimmed) {
            Some(name) => Ok(Host::Host(name, DnsResolver::new())),
            None => Err(HostParseError),
        }
    }

    /// Parses the host argument; the same reading as `parse`.
    pub fn new(s: &str) -> (r: Result<Host, HostParseError>)
        ensures
            ({
                let t = spec_trim(s@);
                &&& (spec_parse_ipv4(t) matches Some(v) ==> (r matches Ok(h) && h == Host::IpAddr(
                    IpAddress::V4(v),
                )))
                &&& (spec_parse_ipv4(t) is None ==> (spec_parse_ipv6(t) matches Some(v) ==> (r
                    matches Ok(h) && h == Host::IpAddr(IpAddress::V6(v)))))
                &&& (spec_parse_ipv4(t) is None && spec_parse_ipv6(t) is None ==> (dns_name_of(t)
                    matches Some(n) ==> (r matches Ok(h) && (h matches Host::Host(nm, res) && nm@
                    == n && res.wf() && res.entries_seq().len() == 0))))
                &&& (spec_parse_ipv4(t) is None && spec_parse_ipv6(t) is None && dns_name_of(t)
                    is None ==> r is Err)
            }),
            r matches Ok(h) ==> h.wf(),
    {
        Host::parse(s)
    }

    /// The undecorated argument form of the host: the
    /// address's text, or the bare name.
    pub fn as_string(&self) -> (r: String)
        ensures
            match self {
                Host::IpAddr(ip) => r@ == spec_ip_display(*ip),
                Host::Host(nm, _) => r@ == nm@,
            },
    {
        match self {
            Host::IpAddr(ip) => ip.to_display_string(),
            Host::Host(nm, _) => String::from_str(nm.as_str()),
        }
    }

    /// The log form: a static host shows its address plain, a dynamic one
    /// its name in quotes, so the two can never be confused.
    pub fn display_string(&self) -> (r: String)
        ensures
            match self {
                Host::IpAddr(ip) => r@ == spec_ip_display(*ip),
                Host::Host(nm, _) => r@ == seq!['"'] + nm@ + seq!['"'],
            },
    {
        match self {
            Host::IpAddr(ip) => ip.to_display_string(),
            Host::Host(nm, _) => {
                let mut out = String::new();
                push_char(&mut out, '"');
                out.append(nm.as_str());
                push_char(&mut out, '"');
                proof {
                    assert(out@ =~= seq!['"'] + nm@ + seq!['"']);
                }
                out
            },
        }
    }

    /// One resolution step for the given port.  A static host is ready at
    /// once — one target, no lookup, no cache involved.  A dynamic host
    /// serves the first live cache line that holds addresses (v4 first,
    /// else v6) — so an answer, when there is one, is never empty — or asks
    /// for a fresh lookup.
    pub fn to_hosts_step(&self, port: u16, now: u64) -> (r: TargetsStep)
        requires
            self.wf(),
        ensures
            match self {
                Host::IpAddr(ip) => r matches TargetsStep::Ready(ts) && ts@ == seq![
                    SocketAddress { ip: *ip, port },
                ],
                Host::Host(nm, res) => match r {
                    TargetsStep::Ready(ts) => ts@.len() > 0 && ((res.live_nonempty(
                        nm@,
                        RecordKind::A,
                        now,
                    ) && ts@ == with_port_spec(res.entry_addrs(nm@, RecordKind::A), port)) || (
                    !res.live_nonempty(nm@, RecordKind::A, now) && res.live_nonempty(
                        nm@,
                        RecordKind::Aaaa,
                        now,
                    ) && ts@ == with_port_spec(res.entry_addrs(nm@, RecordKind::Aaaa), port))),
                    TargetsStep::NeedsLookup => !res.live_nonempty(nm@, RecordKind::A, now)
                        && !res.live_nonempty(nm@, RecordKind::Aaaa, now),
                },
            },
    {
        match self {
            Host::IpAddr(ip) => {
                let mut ts: Vec<SocketAddress> = Vec::new();
                ts.push(SocketAddress { ip: *ip, port });
                proof {
                    assert(ts@ =~= seq![SocketAddress { ip: *ip, port }]);
                }
                TargetsStep::Ready(ts)
            },
            Host::Host(nm, res) => match res.resolve_step(nm.as_str(), port, now) {
                ResolveStep::Cached(ts) => TargetsStep::Ready(ts),
                ResolveStep::NeedsLookup => TargetsStep::NeedsLookup,
            },
        }
    }

    /// Folds a completed lookup into the dynamic host's cache — one line
    /// per family, valid until `expiry_at(now, ttl_ms)` — and returns every
    /// resolved address of both families with the port attached; at least
    /// one target comes back whenever the lookup resolved anything.
    pub fn complete_lookup(
        &mut self,
        v4: &Vec<IpAddress>,
        v6: &Vec<IpAddress>,
        ttl_ms: u64,
        now: u64,
        port: u16,
    ) -> (targets: Vec<SocketAddress>)
        requires
            old(self).wf(),
            *old(self) matches Host::Host(_, _),
        ensures
            final (self).wf(),
            targets@ == with_port_spec(v4@ + v6@, port),
            targets@.len() == v4@.len() + v6@.len(),
            *final (self) matches Host::Host(nm, res) && (*old(self) matches Host::Host(nm0, _)
                && nm@ == nm0@) && res.has_entry(nm@, RecordKind::A) && res.entry_addrs(
                nm@,
                RecordKind::A,
            ) == v4@ && res.entry_expiry(nm@, RecordKind::A) == expiry_at(now, ttl_ms)
                && res.has_entry(nm@, RecordKind::Aaaa) && res.entry_addrs(nm@, RecordKind::Aaaa)
                == v6@ && res.entry_expiry(nm@, RecordKind::Aaaa) == expiry_at(now, ttl_ms),
    {
        match self {
            Host::Host(nm, res) => res.complete_lookup(nm.as_str(), v4, v6, ttl_ms, now, port),
            Host::IpAddr(_) => unreached(),
        }
    }
}

} // verus!
