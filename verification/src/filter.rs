//! Allow/deny membership filters over ports and addresses.  A small set is
//! held as a sorted, duplicate-free array searched by bisection; a large one
//! as an unordered duplicate-free table scanned by key.  Either way the
//! membership answer is the same.

use vstd::prelude::*;

use crate::addr::{IpAddress, SocketAddress};

verus! {

/// Deny-listed items are refused; allow-listed items are the only ones let
/// through.
#[derive(Debug, Copy, Clone)]
pub enum FilterMode {
    BlackList,
    WhiteList,
}

/// Item types a `Filter` can hold: each exposes an injective integer key
/// that orders and distinguishes values.
pub trait FilterInner: Sized + Copy {
    spec fn key_spec(self) -> int;

    proof fn lemma_key_injective(self, other: Self)
        ensures
            self.key_spec() == other.key_spec() ==> self == other,
    ;

    fn key_lt(self, other: Self) -> (r: bool)
        ensures
            r == (self.key_spec() < other.key_spec()),
    ;

    fn key_eq(self, other: Self) -> (r: bool)
        ensures
            r == (self.key_spec() == other.key_spec()),
    ;
}

impl FilterInner for u16 {
    open spec fn key_spec(self) -> int {
        self as int
    }

    proof fn lemma_key_injective(self, other: Self) {
    }

    fn key_lt(self, other: Self) -> bool {
        self < other
    }

    fn key_eq(self, other: Self) -> bool {
        self == other
    }
}

impl FilterInner for IpAddress {
    /// v4 addresses order below all v6 addresses.
    open spec fn key_spec(self) -> int {
        match self {
            IpAddress::V4(v) => v as int,
            IpAddress::V6(v) => 0x1_0000_0000 + v as int,
        }
    }

    proof fn lemma_key_injective(self, other: Self) {
    }

    fn key_lt(self, other: Self) -> bool {
        match (self, other) {
            (IpAddress::V4(a), IpAddress::V4(b)) => a < b,
            (IpAddress::V4(_), IpAddress::V6(_)) => true,
            (IpAddress::V6(_), IpAddress::V4(_)) => false,
            (IpAddress::V6(a), IpAddress::V6(b)) => a < b,
        }
    }

    fn key_eq(self, other: Self) -> bool {
        match (self, other) {
            (IpAddress::V4(a), IpAddress::V4(b)) => a == b,
            (IpAddress::V6(a), IpAddress::V6(b)) => a == b,
            _ => false,
        }
    }
}

/// Membership of `x` in the sequence, by equality.
pub open spec fn seq_mem<T>(s: Seq<T>, x: T) -> bool {
    exists|i: int| 0 <= i < s.len() && s[i] == x
}

/// Largest item count kept in the sorted-array form.
pub const SMALL_LEN: usize = 8;

enum FilterRepr<T> {
    Small(Vec<T>),
    Big(Vec<T>),
}

/// An allow- or deny-set of items.
pub struct Filter<T> {
    repr: FilterRepr<T>,
    mode: FilterMode,
}

impl<T: FilterInner> Filter<T> {
    /// The items the filter holds, in representation order.
    pub closed spec fn items(&self) -> Seq<T> {
        match self.repr {
            FilterRepr::Small(v) => v@,
            FilterRepr::Big(v) => v@,
        }
    }

    pub closed spec fn spec_mode(&self) -> FilterMode {
        self.mode
    }

    pub closed spec fn is_small(&self) -> bool {
        self.repr is Small
    }

    /// Sorted strictly when small, duplicate-free always, and small only up
    /// to the threshold.
    pub closed spec fn wf(&self) -> bool {
        &&& match self.repr {
            FilterRepr::Small(v) => (forall|i: int, j: int|
                0 <= i < j < v@.len() ==> v@[i].key_spec() < v@[j].key_spec()) && v@.len()
                <= SMALL_LEN,
            FilterRepr::Big(v) => forall|i: int, j: int|
                0 <= i < j < v@.len() ==> v@[i].key_spec() != v@[j].key_spec(),
        }
    }

    pub open spec fn contains_item(&self, x: T) -> bool {
        seq_mem(self.items(), x)
    }

    /// What `allowed` answers: membership, inverted under a deny-list.
    pub open spec fn allowed_spec(&self, x: T) -> bool {
        match self.spec_mode() {
            FilterMode::WhiteList => self.contains_item(x),
            FilterMode::BlackList => !self.contains_item(x),
        }
    }

    /// Builds a filter from the given items; duplicates collapse.  At most
    /// the threshold of distinct items take the sorted-array form — also
    /// after shrinking back from the table form when duplicates leave few
    /// enough behind — and more take the table form.
    pub fn new(items: &[T], mode: FilterMode) -> (r: Self)
        ensures
            r.wf(),
            r.spec_mode() == mode,
            forall|x: T| r.contains_item(x) <==> seq_mem(items@, x),
            r.is_small() <==> r.items().len() <= SMALL_LEN,
    {
        if items.len() > SMALL_LEN {
            let mut v: Vec<T> = Vec::new();
            let mut i: usize = 0;
            while i < items.len()
                invariant
                    0 <= i <= items@.len(),
                    forall|a: int, b: int|
                        0 <= a < b < v@.len() ==> v@[a].key_spec() != v@[b].key_spec(),
                    forall|x: T|
                        seq_mem(v@, x) <==> seq_mem(items@.subrange(0, i as int), x),
                decreases items@.len() - i,
            {
                let it = items[i];
                let ghost pre = v@;
                let ghost done = items@.subrange(0, i as int);
                let ghost cur = items@.subrange(0, i as int + 1);
                proof {
                    assert(cur =~= done.push(items@[i as int]));
                }
                if !scan_contains(&v, it) {
                    v.push(it);
                    proof {
                        assert(v@ == pre.push(it));
                        lemma_mem_push(pre, it);
                        assert forall|a: int, b: int|
                            0 <= a < b < v@.len() implies v@[a].key_spec()
                            != v@[b].key_spec() by {
                            if b == v@.len() - 1 {
                                assert(seq_mem(pre, pre[a]));
                                pre[a].lemma_key_injective(it);
                            }
                        }
                    }
                } else {
                    proof {
                        let w = choose|k: int|
                            0 <= k < pre.len() && pre[k].key_spec() == it.key_spec();
                        pre[w].lemma_key_injective(it);
                        assert(seq_mem(pre, it));
                    }
                }
                proof {
                    lemma_mem_push(done, it);
                    assert(cur == done.push(it));
                    assert forall|x: T| seq_mem(v@, x) <==> seq_mem(cur, x) by {
                        assert(seq_mem(cur, x) == (seq_mem(done, x) || x == it));
                        if !seq_mem(pre, it) {
                            assert(seq_mem(v@, x) == (seq_mem(pre, x) || x == it));
                        }
                    }
                }
                i += 1;
            }
            proof {
                assert(items@.subrange(0, items@.len() as int) =~= items@);
            }
            if v.len() <= SMALL_LEN {
                let small = sort_small(&v);
                Filter { repr: FilterRepr::Small(small), mode }
            } else {
                Filter { repr: FilterRepr::Big(v), mode }
            }
        } else {
            let mut v: Vec<T> = Vec::new();
            let mut i: usize = 0;
            while i < items.len()
                invariant
                    0 <= i <= items@.len() <= SMALL_LEN,
                    v@.len() <= i,
                    forall|a: int, b: int|
                        0 <= a < b < v@.len() ==> v@[a].key_spec() < v@[b].key_spec(),
                    forall|x: T|
                        seq_mem(v@, x) <==> seq_mem(items@.subrange(0, i as int), x),
                decreases items@.len() - i,
            {
                let ghost done = items@.subrange(0, i as int);
                let ghost cur = items@.subrange(0, i as int + 1);
                let ghost pre = v@;
                proof {
                    assert(cur =~= done.push(items@[i as int]));
                    lemma_mem_push(done, items@[i as int]);
                }
                sorted_insert(&mut v, items[i]);
                proof {
                    assert forall|x: T| seq_mem(v@, x) <==> seq_mem(cur, x) by {
                        assert(seq_mem(v@, x) == (seq_mem(pre, x) || x == items@[i as int]));
                        assert(seq_mem(cur, x) == (seq_mem(done, x) || x == items@[i as int]));
                    }
                }
                i += 1;
            }
            proof {
                assert(items@.subrange(0, items@.len() as int) =~= items@);
            }
            Filter { repr: FilterRepr::Small(v), mode }
        }
    }

    /// Whether the item passes the filter.
    pub fn allowed(&self, item: T) -> (r: bool)
        requires
            self.wf(),
        ensures
            r == self.allowed_spec(item),
    {
        let contains = match &self.repr {
            FilterRepr::Small(v) => sorted_search(v, item),
            FilterRepr::Big(v) => scan_contains(v, item),
        };
        proof {
            if self.contains_item(item) {
                let w = choose|i: int|
                    0 <= i < self.items().len() && self.items()[i] == item;
                assert(self.items()[w].key_spec() == item.key_spec());
            }
            if exists|i: int|
                0 <= i < self.items().len() && self.items()[i].key_spec() == item.key_spec() {
                let w = choose|i: int|
                    0 <= i < self.items().len() && self.items()[i].key_spec()
                        == item.key_spec();
                self.items()[w].lemma_key_injective(item);
            }
        }
        match self.mode {
            FilterMode::BlackList => !contains,
            FilterMode::WhiteList => contains,
        }
    }
}

proof fn lemma_mem_push<T>(s: Seq<T>, x: T)
    ensures
        forall|y: T| seq_mem(#[trigger] s.push(x), y) <==> seq_mem(s, y) || y == x,
{
    assert forall|y: T| seq_mem(#[trigger] s.push(x), y) <==> seq_mem(s, y) || y == x by {
        if y == x {
            assert(s.push(x)[s.len() as int] == x);
        }
        if seq_mem(s, y) {
            let i = choose|i: int| 0 <= i < s.len() && s[i] == y;
            assert(s.push(x)[i] == y);
        }
        if seq_mem(s.push(x), y) {
            let i = choose|i: int| 0 <= i < s.push(x).len() && s.push(x)[i] == y;
            if i < s.len() {
                assert(s[i] == y);
            }
        }
    }
}

/// Linear search by key.
fn scan_contains<T: FilterInner>(v: &Vec<T>, item: T) -> (r: bool)
    ensures
        r == exists|i: int| 0 <= i < v@.len() && v@[i].key_spec() == item.key_spec(),
{
    let mut i: usize = 0;
    while i < v.len()
        invariant
            0 <= i <= v@.len(),
            forall|j: int| 0 <= j < i ==> v@[j].key_spec() != item.key_spec(),
        decreases v@.len() - i,
    {
        if v[i].key_eq(item) {
            return true;
        }
        i += 1;
    }
    false
}

/// Insert into a strictly sorted vector, keeping it sorted; nothing changes
/// when an equal-keyed item is already present.
fn sorted_insert<T: FilterInner>(v: &mut Vec<T>, item: T)
    requires
        forall|i: int, j: int|
            0 <= i < j < old(v)@.len() ==> old(v)@[i].key_spec() < old(v)@[j].key_spec(),
    ensures
        forall|i: int, j: int|
            0 <= i < j < final (v)@.len() ==> final (v)@[i].key_spec() < final (v)@[j].key_spec(),
        final (v)@.len() <= old(v)@.len() + 1,
        forall|x: T| seq_mem(final (v)@, x) <==> seq_mem(old(v)@, x) || x == item,
        (exists|j: int|
            0 <= j < old(v)@.len() && old(v)@[j].key_spec() == item.key_spec()) ==> *final (v)
            == *old(v),
        (forall|j: int|
            0 <= j < old(v)@.len() ==> old(v)@[j].key_spec() != item.key_spec()) ==> final (
        v)@.len() == old(v)@.len() + 1,
{
    let mut pos: usize = 0;
    while pos < v.len() && v[pos].key_lt(item)
        invariant
            0 <= pos <= v@.len(),
            v@ == old(v)@,
            forall|j: int| 0 <= j < pos ==> v@[j].key_spec() < item.key_spec(),
            forall|i: int, j: int|
                0 <= i < j < v@.len() ==> v@[i].key_spec() < v@[j].key_spec(),
        decreases v@.len() - pos,
    {
        pos += 1;
    }
    if pos < v.len() && v[pos].key_eq(item) {
        proof {
            old(v)@[pos as int].lemma_key_injective(item);
            assert(old(v)@[pos as int] == item);
            assert(seq_mem(old(v)@, item));
            assert forall|x: T| seq_mem(v@, x) <==> seq_mem(old(v)@, x) || x == item by {}
        }
        return ;
    }
    let ghost pre = v@;
    v.insert(pos, item);
    proof {
        assert(v@ == pre.insert(pos as int, item));
        assert forall|i: int, j: int|
            0 <= i < j < v@.len() implies v@[i].key_spec() < v@[j].key_spec() by {
            let key = |k: int|
                if k < pos {
                    pre[k]
                } else if k == pos {
                    item
                } else {
                    pre[k - 1]
                };
            assert(v@[i] == key(i));
            assert(v@[j] == key(j));
            if pos < pre.len() {
                assert(pre[pos as int].key_spec() > item.key_spec() || pre[
                    pos as int
                ].key_spec() == item.key_spec());
                assert(pre[pos as int].key_spec() != item.key_spec());
            }
        }
        assert forall|x: T| seq_mem(v@, x) <==> seq_mem(pre, x) || x == item by {
            if x == item {
                assert(v@[pos as int] == item);
            }
            if seq_mem(pre, x) {
                let i = choose|i: int| 0 <= i < pre.len() && pre[i] == x;
                if i < pos {
                    assert(v@[i] == x);
                } else {
                    assert(v@[i + 1] == x);
                }
            }
            if seq_mem(v@, x) {
                let i = choose|i: int| 0 <= i < v@.len() && v@[i] == x;
                if i < pos {
                    assert(pre[i] == x);
                } else if i > pos {
                    assert(pre[i - 1] == x);
                }
            }
        }
    }
}

/// Orders a vector with pairwise-distinct keys into the sorted-array form.
fn sort_small<T: FilterInner>(v: &Vec<T>) -> (out: Vec<T>)
    requires
        forall|a: int, b: int| 0 <= a < b < v@.len() ==> v@[a].key_spec() != v@[b].key_spec(),
    ensures
        forall|i: int, j: int| 0 <= i < j < out@.len() ==> out@[i].key_spec() < out@[j].key_spec(),
        out@.len() == v@.len(),
        forall|x: T| seq_mem(out@, x) <==> seq_mem(v@, x),
{
    let mut out: Vec<T> = Vec::new();
    let mut i: usize = 0;
    while i < v.len()
        invariant
            0 <= i <= v@.len(),
            out@.len() == i,
            forall|a: int, b: int|
                0 <= a < b < v@.len() ==> v@[a].key_spec() != v@[b].key_spec(),
            forall|a: int, b: int|
                0 <= a < b < out@.len() ==> out@[a].key_spec() < out@[b].key_spec(),
            forall|x: T| seq_mem(out@, x) <==> seq_mem(v@.subrange(0, i as int), x),
        decreases v@.len() - i,
    {
        let ghost done = v@.subrange(0, i as int);
        let ghost cur = v@.subrange(0, i as int + 1);
        let ghost pre = out@;
        proof {
            assert(cur =~= done.push(v@[i as int]));
            lemma_mem_push(done, v@[i as int]);
        }
        proof {
            // the new item's key is absent from what is already placed
            assert forall|j: int|
                0 <= j < out@.len() implies out@[j].key_spec() != v@[i as int].key_spec() by {
                assert(seq_mem(out@, out@[j]));
                assert(seq_mem(done, out@[j]));
                let w = choose|w: int| 0 <= w < done.len() && done[w] == out@[j];
                assert(v@[w] == out@[j]);
            }
        }
        sorted_insert(&mut out, v[i]);
        proof {
            assert forall|x: T| seq_mem(out@, x) <==> seq_mem(cur, x) by {
                assert(seq_mem(out@, x) == (seq_mem(pre, x) || x == v@[i as int]));
                assert(seq_mem(cur, x) == (seq_mem(done, x) || x == v@[i as int]));
            }
        }
        i += 1;
    }
    proof {
        assert(v@.subrange(0, v@.len() as int) =~= v@);
    }
    out
}

/// Bisection over a strictly sorted vector.
fn sorted_search<T: FilterInner>(v: &Vec<T>, item: T) -> (r: bool)
    requires
        forall|i: int, j: int| 0 <= i < j < v@.len() ==> v@[i].key_spec() < v@[j].key_spec(),
    ensures
        r == exists|i: int| 0 <= i < v@.len() && v@[i].key_spec() == item.key_spec(),
{
    let mut lo: usize = 0;
    let mut hi: usize = v.len();
    while lo < hi
        invariant
            0 <= lo <= hi <= v@.len(),
            forall|i: int, j: int| 0 <= i < j < v@.len() ==> v@[i].key_spec() < v@[j].key_spec(),
            forall|i: int| 0 <= i < lo ==> v@[i].key_spec() < item.key_spec(),
            forall|i: int| hi <= i < v@.len() ==> v@[i].key_spec() > item.key_spec(),
        decreases hi - lo,
    {
        let mid = lo + (hi - lo) / 2;
        if v[mid].key_eq(item) {
            return true;
        } else if v[mid].key_lt(item) {
            lo = mid + 1;
        } else {
            hi = mid;
        }
    }
    false
}

/// What well-formedness means for each representation: the array form is
/// strictly sorted by key (so bisection is sound, also after shrinking
/// back from the table form) and bounded by the threshold; the table form
/// is duplicate-free by key.
pub proof fn lemma_representation_invariant<T: FilterInner>(f: &Filter<T>)
    requires
        f.wf(),
    ensures
        f.is_small() ==> (forall|i: int, j: int|
            0 <= i < j < f.items().len() ==> f.items()[i].key_spec() < f.items()[j].key_spec())
            && f.items().len() <= SMALL_LEN,
        !f.is_small() ==> (forall|i: int, j: int|
            0 <= i < j < f.items().len() ==> f.items()[i].key_spec() != f.items()[j].key_spec()),
{
}

/// Two well-formed filters with the same mode and the same items answer
/// alike, whatever representation each took.
pub proof fn lemma_filter_agreement<T: FilterInner>(f: &Filter<T>, g: &Filter<T>, x: T)
    requires
        f.spec_mode() == g.spec_mode(),
        forall|y: T| f.contains_item(y) <==> g.contains_item(y),
    ensures
        f.allowed_spec(x) == g.allowed_spec(x),
{
}

/// The composite filter: a socket address passes when both its port and its
/// peer address pass their own filters.
pub struct SocketAddrFilter {
    ip_filter: Filter<IpAddress>,
    port_filter: Filter<u16>,
}

impl SocketAddrFilter {
    pub open spec fn wf(&self) -> bool {
        self.spec_ip_filter().wf() && self.spec_port_filter().wf()
    }

    pub closed spec fn spec_ip_filter(&self) -> Filter<IpAddress> {
        self.ip_filter
    }

    pub closed spec fn spec_port_filter(&self) -> Filter<u16> {
        self.port_filter
    }

    pub fn new(ip_filter: Filter<IpAddress>, port_filter: Filter<u16>) -> (r: Self)
        requires
            ip_filter.wf(),
            port_filter.wf(),
        ensures
            r.wf(),
            r.spec_ip_filter() == ip_filter,
            r.spec_port_filter() == port_filter,
    {
        SocketAddrFilter { ip_filter, port_filter }
    }

    /// Both filters must agree to let the address through.
    pub fn allowed(&self, addr: SocketAddress) -> (r: bool)
        requires
            self.wf(),
        ensures
            r == (self.spec_port_filter().allowed_spec(addr.port)
                && self.spec_ip_filter().allowed_spec(addr.ip)),
    {
        self.port_filter.allowed(addr.port) && self.ip_filter.allowed(addr.ip)
    }
}

} // verus!
