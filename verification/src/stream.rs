//! The fair accept schedule over many bound sockets.  The sockets
//! themselves live outside the library; this state decides which ready
//! socket is taken next, and when the probe order is reshuffled so that a
//! fixed order cannot starve a socket under skewed load.

use vstd::prelude::*;

verus! {

/// Accepts between two reshuffles of the probe order.
pub const SHUFFLE_PERIOD: u64 = 1024;

/// The acceptor's schedule: a probe order over the socket indices and the
/// count of accepts since the order last changed.
pub struct AcceptScheduler {
    order: Vec<usize>,
    since_shuffle: u64,
}

/// `s` is a permutation of the indices below `n`.
pub open spec fn is_permutation(s: Seq<usize>, n: int) -> bool {
    &&& s.len() == n
    &&& forall|i: int| 0 <= i < s.len() ==> (#[trigger] s[i]) < n
    &&& forall|i: int, j: int| 0 <= i < j < s.len() ==> s[i] != s[j]
}

impl AcceptScheduler {
    pub closed spec fn order_seq(&self) -> Seq<usize> {
        self.order@
    }

    pub closed spec fn accepts_since_shuffle(&self) -> u64 {
        self.since_shuffle
    }

    pub open spec fn wf(&self) -> bool {
        is_permutation(self.order_seq(), self.order_seq().len() as int)
    }

    /// A schedule over `n` sockets, probing in index order to begin with.
    pub fn new(n: usize) -> (r: Self)
        ensures
            r.wf(),
            r.order_seq().len() == n,
            forall|i: int| 0 <= i < n ==> #[trigger] r.order_seq()[i] == i,
            r.accepts_since_shuffle() == 0,
    {
        let mut order: Vec<usize> = Vec::new();
        let mut i: usize = 0;
        while i < n
            invariant
                0 <= i <= n,
                order@.len() == i,
                forall|j: int| 0 <= j < i ==> #[trigger] order@[j] == j,
            decreases n - i,
        {
            order.push(i);
            i += 1;
        }
        AcceptScheduler { order, since_shuffle: 0 }
    }

    /// The socket taken next: the first ready one in probe order; none when
    /// no socket is ready (the caller then waits for readiness).
    pub fn pick(&self, ready: &Vec<bool>) -> (r: Option<usize>)
        requires
            self.wf(),
            ready@.len() == self.order_seq().len(),
        ensures
            match r {
                Some(k) => exists|i: int|
                    0 <= i < self.order_seq().len() && #[trigger] self.order_seq()[i] == k
                        && ready@[k as int] && (forall|j: int|
                        0 <= j < i ==> !ready@[self.order_seq()[j] as int]),
                None => forall|i: int|
                    0 <= i < self.order_seq().len() ==> !ready@[#[trigger] self.order_seq()[i] as int],
            },
    {
        let n = self.order.len();
        let mut i: usize = 0;
        while i < n
            invariant
                self.wf(),
                n == self.order_seq().len() == ready@.len(),
                0 <= i <= n,
                forall|j: int| 0 <= j < i ==> !ready@[self.order_seq()[j] as int],
            decreases n - i,
        {
            let k = self.order[i];
            if ready[k] {
                return Some(k);
            }
            i += 1;
        }
        None
    }

    /// How many sockets the schedule covers.
    pub fn socket_count(&self) -> (n: usize)
        ensures
            n == self.order_seq().len(),
    {
        self.order.len()
    }

    /// The socket probed at position `i` of the current order.
    pub fn probe_at(&self, i: usize) -> (k: usize)
        requires
            self.wf(),
            i < self.order_seq().len(),
        ensures
            k == self.order_seq()[i as int],
            k < self.order_seq().len(),
    {
        self.order[i]
    }

    /// Books one accept; reports whether the order is due for a reshuffle.
    pub fn note_accept(&mut self) -> (due: bool)
        requires
            old(self).wf(),
        ensures
            final (self).wf(),
            final (self).order_seq() == old(self).order_seq(),
            final (self).accepts_since_shuffle() == (if old(self).accepts_since_shuffle()
                < SHUFFLE_PERIOD {
                old(self).accepts_since_shuffle() + 1
            } else {
                old(self).accepts_since_shuffle() as int
            }),
            due == (final (self).accepts_since_shuffle() >= SHUFFLE_PERIOD),
    {
        if self.since_shuffle < SHUFFLE_PERIOD {
            self.since_shuffle = self.since_shuffle + 1;
        }
        self.since_shuffle >= SHUFFLE_PERIOD
    }

    /// Installs a new probe order brought by the caller (typically drawn at
    /// random) after checking that it really is a permutation; anything
    /// else leaves the schedule unchanged.
    pub fn reshuffle(&mut self, perm: &Vec<usize>) -> (ok: bool)
        requires
            old(self).wf(),
        ensures
            final (self).wf(),
            ok == is_permutation(perm@, old(self).order_seq().len() as int),
            ok ==> final (self).order_seq() == perm@ && final (self).accepts_since_shuffle() == 0,
            !ok ==> *final (self) == *old(self),
    {
        let n = self.order.len();
        if perm.len() != n {
            return false;
        }
        let mut seen: Vec<bool> = vec![false; n];
        let mut i: usize = 0;
        while i < n
            invariant
                *self == *old(self),
                self.wf(),
                n == self.order_seq().len() == perm@.len(),
                seen@.len() == n,
                0 <= i <= n,
                forall|j: int| 0 <= j < i ==> (#[trigger] perm@[j]) < n,
                forall|a: int, b: int| 0 <= a < b < i ==> perm@[a] != perm@[b],
                forall|k: int|
                    0 <= k < n ==> (seen@[k] <==> exists|j: int|
                        0 <= j < i && #[trigger] perm@[j] == k),
            decreases n - i,
        {
            let v = perm[i];
            if v >= n {
                proof {
                    assert(!is_permutation(perm@, n as int));
                }
                return false;
            }
            if seen[v] {
                proof {
                    let j = choose|j: int| 0 <= j < i && #[trigger] perm@[j] == v as int;
                    assert(perm@[j] == perm@[i as int]);
                    assert(!is_permutation(perm@, n as int));
                }
                return false;
            }
            seen.set(v, true);
            proof {
                assert forall|k: int|
                    0 <= k < n implies (seen@[k] <==> exists|j: int|
                        0 <= j < i + 1 && #[trigger] perm@[j] == k) by {
                    if k == v as int {
                        assert(perm@[i as int] == k);
                    }
                }
            }
            i += 1;
        }
        let mut new_order: Vec<usize> = Vec::new();
        let mut j: usize = 0;
        while j < n
            invariant
                *self == *old(self),
                self.wf(),
                n == self.order_seq().len() == perm@.len(),
                0 <= j <= n,
                new_order@ == perm@.subrange(0, j as int),
            decreases n - j,
        {
            new_order.push(perm[j]);
            proof {
                assert(new_order@ =~= perm@.subrange(0, j as int + 1));
            }
            j += 1;
        }
        proof {
            assert(perm@.subrange(0, n as int) =~= perm@);
        }
        self.order = new_order;
        self.since_shuffle = 0;
        true
    }
}

} // verus!
