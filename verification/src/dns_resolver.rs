//! The caching half of name resolution.  The cache is keyed by query name
//! and record family; a line is served only while its expiry lies in the
//! future on the caller's clock.  The network lookup itself happens outside
//! the library: `resolve_step` says whether the cache answers, and
//! `complete_lookup` folds a fresh answer back in.

use vstd::prelude::*;

use crate::addr::{IpAddress, SocketAddress};
use crate::text::str_eq;

verus! {

/// The two record families the cache distinguishes.
#[derive(Clone, Copy, PartialEq, Eq, Structural, Debug)]
pub enum RecordKind {
    A,
    Aaaa,
}

/// One cache line: what a (name, family) query resolved to, and until when
/// the answer may be served (milliseconds on the caller's clock).
pub struct CacheEntry {
    pub name: String,
    pub kind: RecordKind,
    pub addrs: Vec<IpAddress>,
    pub expires_at: u64,
}

/// The resolver's cache.
pub struct DnsResolver {
    entries: Vec<CacheEntry>,
}

/// `addrs` with the port attached to each address.
pub open spec fn with_port_spec(addrs: Seq<IpAddress>, port: u16) -> Seq<SocketAddress> {
    Seq::new(addrs.len(), |i: int| SocketAddress { ip: addrs[i], port })
}

/// Attaches the port to every address.
pub fn with_port(addrs: &Vec<IpAddress>, port: u16) -> (r: Vec<SocketAddress>)
    ensures
        r@ == with_port_spec(addrs@, port),
{
    let mut out: Vec<SocketAddress> = Vec::new();
    let mut i: usize = 0;
    while i < addrs.len()
        invariant
            0 <= i <= addrs@.len(),
            out@ == with_port_spec(addrs@, port).subrange(0, i as int),
        decreases addrs@.len() - i,
    {
        out.push(SocketAddress { ip: addrs[i], port });
        proof {
            assert(out@ =~= with_port_spec(addrs@, port).subrange(0, i as int + 1));
        }
        i += 1;
    }
    proof {
        assert(with_port_spec(addrs@, port).subrange(0, addrs@.len() as int) =~= with_port_spec(
            addrs@,
            port,
        ));
    }
    out
}

/// When a line written at `now` with the response's `ttl_ms` expires:
/// `now + ttl_ms`, saturating at the clock's end.
pub open spec fn expiry_at(now: u64, ttl_ms: u64) -> u64 {
    if ttl_ms > u64::MAX - now {
        u64::MAX
    } else {
        (now + ttl_ms) as u64
    }
}

/// What `resolve_step` answers.
pub enum ResolveStep {
    Cached(Vec<SocketAddress>),
    NeedsLookup,
}

impl DnsResolver {
    pub closed spec fn entries_seq(&self) -> Seq<CacheEntry> {
        self.entries@
    }

    /// Keys are unique: no two lines share a name and family.
    pub open spec fn wf(&self) -> bool {
        forall|i: int, j: int|
            0 <= i < j < self.entries_seq().len() ==> !(self.entries_seq()[i].name@
                == self.entries_seq()[j].name@ && self.entries_seq()[i].kind
                == self.entries_seq()[j].kind)
    }

    /// Whether a line for the key exists at all.
    pub open spec fn has_entry(&self, n: Seq<char>, k: RecordKind) -> bool {
        exists|i: int|
            0 <= i < self.entries_seq().len() && self.entries_seq()[i].name@ == n
                && self.entries_seq()[i].kind == k
    }

    pub open spec fn entry_index(&self, n: Seq<char>, k: RecordKind) -> int {
        choose|i: int|
            0 <= i < self.entries_seq().len() && self.entries_seq()[i].name@ == n
                && self.entries_seq()[i].kind == k
    }

    pub open spec fn entry_addrs(&self, n: Seq<char>, k: RecordKind) -> Seq<IpAddress> {
        self.entries_seq()[self.entry_index(n, k)].addrs@
    }

    pub open spec fn entry_expiry(&self, n: Seq<char>, k: RecordKind) -> u64 {
        self.entries_seq()[self.entry_index(n, k)].expires_at
    }

    /// A line that exists and has not expired: only these are ever served.
    pub open spec fn live(&self, n: Seq<char>, k: RecordKind, now: u64) -> bool {
        self.has_entry(n, k) && self.entry_expiry(n, k) > now
    }

    /// A live line that actually holds addresses: only these answer a
    /// resolution, so an empty line for one family can never shadow the
    /// other family's addresses.
    pub open spec fn live_nonempty(&self, n: Seq<char>, k: RecordKind, now: u64) -> bool {
        self.live(n, k, now) && self.entry_addrs(n, k).len() > 0
    }

    /// An empty cache.
    pub fn new() -> (r: Self)
        ensures
            r.wf(),
            r.entries_seq().len() == 0,
    {
        DnsResolver { entries: Vec::new() }
    }

    /// The index of the line for the key, if one exists.
    fn find_index(&self, name: &str, kind: RecordKind) -> (r: Option<usize>)
        requires
            self.wf(),
        ensures
            match r {
                Some(i) => i < self.entries_seq().len() && self.entries_seq()[i as int].name@
                    == name@ && self.entries_seq()[i as int].kind == kind && self.has_entry(
                    name@,
                    kind,
                ) && self.entry_index(name@, kind) == i,
                None => !self.has_entry(name@, kind),
            },
    {
        let n = self.entries.len();
        let mut i: usize = 0;
        while i < n
            invariant
                self.wf(),
                n == self.entries_seq().len(),
                0 <= i <= n,
                forall|j: int|
                    0 <= j < i ==> !(self.entries_seq()[j].name@ == name@
                        && self.entries_seq()[j].kind == kind),
            decreases n - i,
        {
            let e = &self.entries[i];
            let same_kind = match (e.kind, kind) {
                (RecordKind::A, RecordKind::A) => true,
                (RecordKind::Aaaa, RecordKind::Aaaa) => true,
                _ => false,
            };
            if same_kind && str_eq(e.name.as_str(), name) {
                proof {
                    let w = self.entry_index(name@, kind);
                    assert(self.entries_seq()[i as int].name@ == name@);
                    if w != i {
                        assert(false);
                    }
                }
                return Some(i);
            }
            i += 1;
        }
        None
    }

    /// Serves the cached addresses for the key when, and only when, a live
    /// line holds them.
    pub fn cache_lookup(&self, name: &str, kind: RecordKind, now: u64) -> (r: Option<
        Vec<IpAddress>,
    >)
        requires
            self.wf(),
        ensures
            match r {
                Some(addrs) => self.live(name@, kind, now) && addrs@ == self.entry_addrs(
                    name@,
                    kind,
                ),
                None => !self.live(name@, kind, now),
            },
    {
        match self.find_index(name, kind) {
            Some(i) => {
                let e = &self.entries[i];
                if e.expires_at > now {
                    Some(copy_addrs(&e.addrs))
                } else {
                    None
                }
            },
            None => None,
        }
    }

    /// Installs (or replaces) the line for the key; all other lines keep
    /// their contents.
    #[verifier::rlimit(100)]
    pub fn cache_insert(&mut self, name: &str, kind: RecordKind, addrs: Vec<IpAddress>, expires_at: u64)
        requires
            old(self).wf(),
        ensures
            final (self).wf(),
            final (self).has_entry(name@, kind),
            final (self).entry_addrs(name@, kind) == addrs@,
            final (self).entry_expiry(name@, kind) == expires_at,
            forall|n: Seq<char>, k: RecordKind|
                !(n == name@ && k == kind) ==> #[trigger] final (self).has_entry(n, k) == old(
                    self,
                ).has_entry(n, k),
            forall|n: Seq<char>, k: RecordKind|
                !(n == name@ && k == kind) && old(self).has_entry(n, k) ==> #[trigger] final (self).entry_addrs(n, k) == old(self).entry_addrs(n, k),
            forall|n: Seq<char>, k: RecordKind|
                !(n == name@ && k == kind) && old(self).has_entry(n, k) ==> #[trigger] final (self).entry_expiry(n, k) == old(self).entry_expiry(n, k),
    {
        let entry = CacheEntry { name: copy_str(name), kind, addrs, expires_at };
        let ghost pre = self.entries@;
        let idx = self.find_index(name, kind);
        let ghost ii: int = match idx {
            Some(i) => i as int,
            None => pre.len() as int,
        };
        match idx {
            Some(i) => {
                self.entries.set(i, entry);
            },
            None => {
                self.entries.push(entry);
            },
        }
        proof {
            lemma_insert_effect(*old(self), *self, ii, name@, kind);
        }
    }

    /// The caching half of one resolution: serve the first live line that
    /// holds any addresses (the v4 line first, else the v6 line), so a
    /// family that resolved to nothing never hides the other family's
    /// answer; ask for a fresh lookup when no live line has addresses.
    pub fn resolve_step(&self, name: &str, port: u16, now: u64) -> (r: ResolveStep)
        requires
            self.wf(),
        ensures
            match r {
                ResolveStep::Cached(targets) => targets@.len() > 0 && ((self.live_nonempty(
                    name@,
                    RecordKind::A,
                    now,
                ) && targets@ == with_port_spec(self.entry_addrs(name@, RecordKind::A), port)) || (
                !self.live_nonempty(name@, RecordKind::A, now) && self.live_nonempty(
                    name@,
                    RecordKind::Aaaa,
                    now,
                ) && targets@ == with_port_spec(self.entry_addrs(name@, RecordKind::Aaaa), port))),
                ResolveStep::NeedsLookup => !self.live_nonempty(name@, RecordKind::A, now)
                    && !self.live_nonempty(name@, RecordKind::Aaaa, now),
            },
    {
        match self.cache_lookup(name, RecordKind::A, now) {
            Some(addrs) if addrs.len() > 0 => ResolveStep::Cached(with_port(&addrs, port)),
            _ => match self.cache_lookup(name, RecordKind::Aaaa, now) {
                Some(addrs) if addrs.len() > 0 => ResolveStep::Cached(with_port(&addrs, port)),
                _ => ResolveStep::NeedsLookup,
            },
        }
    }

    /// Folds a fresh lookup's answer into the cache — one line per family,
    /// valid until `expiry_at(now, ttl_ms)` — and returns every resolved
    /// address, both families, with the port attached.  At least one target
    /// comes back whenever the lookup resolved at least one address, and a
    /// later `resolve_step` before the expiry is a cache hit.
    #[verifier::rlimit(100)]
    pub fn complete_lookup(
        &mut self,
        name: &str,
        v4: &Vec<IpAddress>,
        v6: &Vec<IpAddress>,
        ttl_ms: u64,
        now: u64,
        port: u16,
    ) -> (targets: Vec<SocketAddress>)
        requires
            old(self).wf(),
        ensures
            final (self).wf(),
            targets@ == with_port_spec(v4@ + v6@, port),
            targets@.len() == v4@.len() + v6@.len(),
            final (self).has_entry(name@, RecordKind::A),
            final (self).entry_addrs(name@, RecordKind::A) == v4@,
            final (self).entry_expiry(name@, RecordKind::A) == expiry_at(now, ttl_ms),
            final (self).has_entry(name@, RecordKind::Aaaa),
            final (self).entry_addrs(name@, RecordKind::Aaaa) == v6@,
            final (self).entry_expiry(name@, RecordKind::Aaaa) == expiry_at(now, ttl_ms),
    {
        let expires_at = if ttl_ms > u64::MAX - now {
            u64::MAX
        } else {
            now + ttl_ms
        };
        self.cache_insert(name, RecordKind::A, copy_addrs(v4), expires_at);
        self.cache_insert(name, RecordKind::Aaaa, copy_addrs(v6), expires_at);
        let mut all = copy_addrs(v4);
        let mut rest = copy_addrs(v6);
        all.append(&mut rest);
        let targets = with_port(&all, port);
        proof {
            assert(all@ == v4@ + v6@);
        }
        targets
    }
}

/// After writing the key's line at `i` (in place, or appended when `i` is
/// the old length), the cache answers for that key from `i`, and for every
/// other key exactly as before.
proof fn lemma_insert_effect(a: DnsResolver, b: DnsResolver, i: int, n0: Seq<char>, k0: RecordKind)
    requires
        a.wf(),
        0 <= i <= a.entries_seq().len(),
        b.entries_seq().len() == (if i == a.entries_seq().len() {
            a.entries_seq().len() + 1
        } else {
            a.entries_seq().len()
        }),
        forall|j: int|
            0 <= j < a.entries_seq().len() && j != i ==> b.entries_seq()[j] == a.entries_seq()[j],
        b.entries_seq()[i].name@ == n0 && b.entries_seq()[i].kind == k0,
        i < a.entries_seq().len() ==> a.entries_seq()[i].name@ == n0 && a.entries_seq()[i].kind
            == k0,
        forall|j: int|
            0 <= j < a.entries_seq().len() && j != i ==> !(a.entries_seq()[j].name@ == n0
                && a.entries_seq()[j].kind == k0),
    ensures
        b.wf(),
        b.has_entry(n0, k0),
        b.entry_index(n0, k0) == i,
        forall|n: Seq<char>, k: RecordKind|
            !(n == n0 && k == k0) ==> #[trigger] b.has_entry(n, k) == a.has_entry(n, k),
        forall|n: Seq<char>, k: RecordKind|
            !(n == n0 && k == k0) && a.has_entry(n, k) ==> #[trigger] b.entry_addrs(n, k)
                == a.entry_addrs(n, k),
        forall|n: Seq<char>, k: RecordKind|
            !(n == n0 && k == k0) && a.has_entry(n, k) ==> #[trigger] b.entry_expiry(n, k)
                == a.entry_expiry(n, k),
{
    assert forall|x: int, y: int| 0 <= x < y < b.entries_seq().len() implies !(b.entries_seq()[x].name@
        == b.entries_seq()[y].name@ && b.entries_seq()[x].kind == b.entries_seq()[y].kind) by {
        if x != i && y != i {
            assert(b.entries_seq()[x] == a.entries_seq()[x]);
            assert(b.entries_seq()[y] == a.entries_seq()[y]);
        } else if x == i {
            assert(b.entries_seq()[y] == a.entries_seq()[y]);
        } else {
            assert(b.entries_seq()[x] == a.entries_seq()[x]);
        }
    }
    assert(b.has_entry(n0, k0)) by {
        assert(b.entries_seq()[i].name@ == n0 && b.entries_seq()[i].kind == k0);
    }
    assert(b.entry_index(n0, k0) == i) by {
        let w = b.entry_index(n0, k0);
        assert(0 <= w < b.entries_seq().len() && b.entries_seq()[w].name@ == n0
            && b.entries_seq()[w].kind == k0);
        if w != i {
            if w < i {
                assert(!(b.entries_seq()[w].name@ == b.entries_seq()[i].name@
                    && b.entries_seq()[w].kind == b.entries_seq()[i].kind));
            } else {
                assert(!(b.entries_seq()[i].name@ == b.entries_seq()[w].name@
                    && b.entries_seq()[i].kind == b.entries_seq()[w].kind));
            }
        }
    }
    assert forall|n: Seq<char>, k: RecordKind| !(n == n0 && k == k0) implies (#[trigger] b.has_entry(
        n,
        k,
    ) == a.has_entry(n, k) && (a.has_entry(n, k) ==> b.entry_addrs(n, k) == a.entry_addrs(n, k)
        && b.entry_expiry(n, k) == a.entry_expiry(n, k))) by {
        if a.has_entry(n, k) {
            let j = a.entry_index(n, k);
            assert(0 <= j < a.entries_seq().len() && a.entries_seq()[j].name@ == n
                && a.entries_seq()[j].kind == k);
            assert(j != i);
            assert(b.entries_seq()[j] == a.entries_seq()[j]);
            assert(b.has_entry(n, k));
            let w = b.entry_index(n, k);
            assert(0 <= w < b.entries_seq().len() && b.entries_seq()[w].name@ == n
                && b.entries_seq()[w].kind == k);
            if w != j {
                if w < j {
                    assert(!(b.entries_seq()[w].name@ == b.entries_seq()[j].name@
                        && b.entries_seq()[w].kind == b.entries_seq()[j].kind));
                } else {
                    assert(!(b.entries_seq()[j].name@ == b.entries_seq()[w].name@
                        && b.entries_seq()[j].kind == b.entries_seq()[w].kind));
                }
            }
            assert(b.entry_addrs(n, k) == a.entry_addrs(n, k));
            assert(b.entry_expiry(n, k) == a.entry_expiry(n, k));
        } else {
            if b.has_entry(n, k) {
                let w = b.entry_index(n, k);
                assert(0 <= w < b.entries_seq().len() && b.entries_seq()[w].name@ == n
                    && b.entries_seq()[w].kind == k);
                assert(w != i);
                assert(b.entries_seq()[w] == a.entries_seq()[w]);
                assert(a.has_entry(n, k));
            }
        }
    }
}

impl Default for DnsResolver {
    /// An empty cache.
    fn default() -> (r: Self)
        ensures
            r.wf(),
            r.entries_seq().len() == 0,
    {
        DnsResolver::new()
    }
}

/// A plain copy of an address vector.
fn copy_addrs(v: &Vec<IpAddress>) -> (r: Vec<IpAddress>)
    ensures
        r@ == v@,
{
    let mut out: Vec<IpAddress> = Vec::new();
    let mut i: usize = 0;
    while i < v.len()
        invariant
            0 <= i <= v@.len(),
            out@ == v@.subrange(0, i as int),
        decreases v@.len() - i,
    {
        out.push(v[i]);
        proof {
            assert(out@ =~= v@.subrange(0, i as int + 1));
        }
        i += 1;
    }
    proof {
        assert(v@.subrange(0, v@.len() as int) =~= v@);
    }
    out
}

/// A plain copy of a string slice.
fn copy_str(s: &str) -> (r: String)
    ensures
        r@ == s@,
{
    String::from_str(s)
}

} // verus!
