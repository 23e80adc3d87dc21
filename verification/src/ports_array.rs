//! The port-set syntax: a comma-separated list in brackets whose elements are
//! single ports, inclusive ranges `a..b`, or exclusive ranges `a..!=b`, with a
//! bare port number accepted as a degenerate form.  Parsing yields a sorted,
//! duplicate-free set of non-zero ports.

use vstd::prelude::*;

use crate::text::{
    all_digits, chars_of, digit_char, digit_val, digits_val, find_pat, find_sep, find_sub,
    is_digit, is_ws, lemma_find_sub_at, parse_u16, push_char, push_dec_u64, spec_dec,
    spec_parse_u16, spec_trim, split_sep, trim_indices,
};

verus! {

/// Error for a string that does not denote a non-empty port set.
#[derive(Debug)]
pub struct PortsArrayParseError;

/// A sorted, duplicate-free, non-empty collection of non-zero TCP ports.
pub struct PortsArray {
    ports: Vec<u16>,
}

// ---------------------------------------------------------------------------
// The grammar, stated over character sequences.
// ---------------------------------------------------------------------------

/// A port number: decimal digits denoting a value in `1..=65535`.
pub open spec fn spec_parse_port(s: Seq<char>) -> Option<u16> {
    match spec_parse_u16(s) {
        Some(p) => if p >= 1 {
            Some(p)
        } else {
            None
        },
        None => None,
    }
}

pub open spec fn range_incl(x: u16, y: u16) -> Set<u16> {
    Set::new(|p: u16| x <= p <= y)
}

pub open spec fn range_excl(x: u16, y: u16) -> Set<u16> {
    Set::new(|p: u16| x <= p < y)
}

/// The ports an already-trimmed list element stands for: a single port, an
/// inclusive range split at the first `..`, or an exclusive range split at
/// the first `..!=`.
pub open spec fn item_ports(t: Seq<char>) -> Option<Set<u16>> {
    if spec_parse_port(t) is Some {
        Some(set![spec_parse_port(t).unwrap()])
    } else {
        let dots = find_sub(t, seq!['.', '.']);
        let dots_ne = find_sub(t, seq!['.', '.', '!', '=']);
        if dots is Some && spec_parse_port(t.subrange(0, dots.unwrap())) is Some && spec_parse_port(
            t.skip(dots.unwrap() + 2),
        ) is Some {
            Some(
                range_incl(
                    spec_parse_port(t.subrange(0, dots.unwrap())).unwrap(),
                    spec_parse_port(t.skip(dots.unwrap() + 2)).unwrap(),
                ),
            )
        } else if dots_ne is Some && spec_parse_port(t.subrange(0, dots_ne.unwrap())) is Some
            && spec_parse_port(t.skip(dots_ne.unwrap() + 4)) is Some {
            Some(
                range_excl(
                    spec_parse_port(t.subrange(0, dots_ne.unwrap())).unwrap(),
                    spec_parse_port(t.skip(dots_ne.unwrap() + 4)).unwrap(),
                ),
            )
        } else {
            None
        }
    }
}

/// Union of the ports of all pieces; `None` as soon as one piece is invalid.
pub open spec fn pieces_union(pieces: Seq<Seq<char>>) -> Option<Set<u16>>
    decreases pieces.len(),
{
    if pieces.len() == 0 {
        Some(Set::empty())
    } else {
        match (item_ports(spec_trim(pieces[0])), pieces_union(pieces.drop_first())) {
            (Some(a), Some(b)) => Some(a.union(b)),
            _ => None,
        }
    }
}

/// A bare port number used when the bracketed form does not apply; note that
/// it reads the input exactly as given, without trimming.
pub open spec fn fallback_ports(s: Seq<char>) -> Option<Set<u16>> {
    match spec_parse_port(s) {
        Some(p) => Some(set![p]),
        None => None,
    }
}

/// The set of ports a string denotes, if any: the bracketed comma-separated
/// list when it is well formed and non-empty, else a bare port number.
pub open spec fn spec_ports_set(s: Seq<char>) -> Option<Set<u16>> {
    let t = spec_trim(s);
    if t.len() >= 2 && t[0] == '[' && t.last() == ']' {
        match pieces_union(split_sep(t.subrange(1, t.len() - 1), ',')) {
            Some(u) => if u != Set::<u16>::empty() {
                Some(u)
            } else {
                fallback_ports(s)
            },
            None => fallback_ports(s),
        }
    } else {
        fallback_ports(s)
    }
}

// ---------------------------------------------------------------------------
// Executable scanning helpers, tied back to the spec functions above.
// ---------------------------------------------------------------------------

/// Parses `[start, end)` of `cs` as a port number.
fn parse_port_range(cs: &Vec<char>, start: usize, end: usize) -> (r: Option<u16>)
    requires
        start <= end <= cs@.len(),
    ensures
        r == spec_parse_port(cs@.subrange(start as int, end as int)),
{
    match parse_u16(&cs[start..end]) {
        Some(p) => if p >= 1 {
            Some(p)
        } else {
            None
        },
        None => None,
    }
}

/// Outcome of parsing one list element.
enum Item {
    One(u16),
    Incl(u16, u16),
    Excl(u16, u16),
    Bad,
}

/// Parses the (untrimmed) piece `[start, end)` of `cs` as a list element.
fn parse_item(cs: &Vec<char>, start: usize, end: usize) -> (r: Item)
    requires
        start <= end <= cs@.len(),
    ensures
        ({
            let tp = spec_trim(cs@.subrange(start as int, end as int));
            match r {
                Item::One(p) => item_ports(tp) == Some(range_incl(p, p)) && p >= 1,
                Item::Incl(x, y) => item_ports(tp) == Some(range_incl(x, y)) && x >= 1,
                Item::Excl(x, y) => item_ports(tp) == Some(range_excl(x, y)) && x >= 1,
                Item::Bad => item_ports(tp) is None,
            }
        }),
{
    let ghost piece = cs@.subrange(start as int, end as int);
    let (s2, e2) = trim_indices(cs, start, end);
    let ghost tp = spec_trim(piece);
    proof {
        assert(cs@.subrange(s2 as int, e2 as int) == tp);
    }
    if let Some(p) = parse_port_range(cs, s2, e2) {
        proof {
            assert(range_incl(p, p) =~= set![p]);
        }
        return Item::One(p);
    }
    let mut pat2: Vec<char> = Vec::new();
    pat2.push('.');
    pat2.push('.');
    proof {
        assert(pat2@ =~= seq!['.', '.']);
    }
    if let Some(k) = find_pat(cs, s2, e2, &pat2) {
        proof {
            assert(tp.subrange(0, k - s2 as int) =~= cs@.subrange(s2 as int, k as int));
            assert(tp.skip(k - s2 as int + 2) =~= cs@.subrange(k as int + 2, e2 as int));
        }
        let left = parse_port_range(cs, s2, k);
        let right = parse_port_range(cs, k + 2, e2);
        if left.is_some() && right.is_some() {
            return Item::Incl(left.unwrap(), right.unwrap());
        }
    }
    let mut pat4: Vec<char> = Vec::new();
    pat4.push('.');
    pat4.push('.');
    pat4.push('!');
    pat4.push('=');
    proof {
        assert(pat4@ =~= seq!['.', '.', '!', '=']);
    }
    if let Some(k) = find_pat(cs, s2, e2, &pat4) {
        proof {
            assert(tp.subrange(0, k - s2 as int) =~= cs@.subrange(s2 as int, k as int));
            assert(tp.skip(k - s2 as int + 4) =~= cs@.subrange(k as int + 4, e2 as int));
        }
        let left = parse_port_range(cs, s2, k);
        let right = parse_port_range(cs, k + 4, e2);
        if left.is_some() && right.is_some() {
            return Item::Excl(left.unwrap(), right.unwrap());
        }
    }
    Item::Bad
}

impl View for PortsArray {
    type V = Seq<u16>;

    closed spec fn view(&self) -> Seq<u16> {
        self.ports@
    }
}

/// The set of ports whose entry in the 65536-entry table is set.
spec fn table_set(pr: Seq<bool>) -> Set<u16> {
    Set::new(|p: u16| pr[p as int])
}

/// Marks `x..=y` (or `x..y`) in the port table.
fn mark_range(present: &mut Vec<bool>, x: u16, y: u16, incl: bool)
    requires
        old(present)@.len() == 65536,
    ensures
        final (present)@.len() == 65536,
        forall|q: int|
            0 <= q < 65536 ==> final (present)@[q] == (old(present)@[q] || (x as int <= q && (if incl {
                q <= y as int
            } else {
                q < y as int
            }))),
{
    let mut i: u32 = x as u32;
    let bound: u32 = if incl {
        y as u32 + 1
    } else {
        y as u32
    };
    while i < bound
        invariant
            present@.len() == 65536,
            x as u32 <= i <= 65536,
            i == x as u32 || i <= bound,
            bound <= 65536,
            forall|q: int|
                0 <= q < 65536 ==> present@[q] == (old(present)@[q] || (x as int <= q < i as int)),
        decreases bound - i,
    {
        present.set(i as usize, true);
        i += 1;
    }
}

/// Reads the table back out as a sorted, duplicate-free port list.
fn collect_ports(present: &Vec<bool>) -> (out: Vec<u16>)
    requires
        present@.len() == 65536,
    ensures
        forall|i: int, j: int| 0 <= i < j < out@.len() ==> out@[i] < out@[j],
        forall|i: int| 0 <= i < out@.len() ==> #[trigger] out@[i] >= 1,
        forall|q: u16|
            (exists|i: int| 0 <= i < out@.len() && out@[i] == q) <==> (q >= 1 && present@[q as int]),
{
    let mut out: Vec<u16> = Vec::new();
    let mut p: u32 = 1;
    while p <= 65535
        invariant
            present@.len() == 65536,
            1 <= p <= 65536,
            forall|i: int, j: int| 0 <= i < j < out@.len() ==> out@[i] < out@[j],
            forall|i: int| 0 <= i < out@.len() ==> 1 <= #[trigger] out@[i] && (out@[i] as int) < p,
            forall|q: u16|
                (exists|i: int| 0 <= i < out@.len() && out@[i] == q) <==> (q >= 1 && (q as int)
                    < p && present@[q as int]),
        decreases 65536 - p,
    {
        if present[p as usize] {
            let ghost before = out@;
            out.push(p as u16);
            proof {
                assert forall|q: u16|
                    (exists|i: int| 0 <= i < out@.len() && out@[i] == q) <==> (q >= 1 && (q as int)
                        < p + 1 && present@[q as int]) by {
                    if q == p as u16 {
                        assert(out@[out@.len() - 1] == q);
                    } else {
                        if exists|i: int| 0 <= i < out@.len() && out@[i] == q {
                            let i = choose|i: int| 0 <= i < out@.len() && out@[i] == q;
                            assert(0 <= i < before.len() && before[i] == q);
                        }
                        if exists|i: int| 0 <= i < before.len() && before[i] == q {
                            let i = choose|i: int| 0 <= i < before.len() && before[i] == q;
                            assert(out@[i] == q);
                        }
                    }
                }
            }
        }
        p += 1;
    }
    out
}

proof fn lemma_pieces_union_cons(piece: Seq<char>, rest: Seq<Seq<char>>)
    ensures
        pieces_union(seq![piece] + rest) == (match (
            item_ports(spec_trim(piece)),
            pieces_union(rest),
        ) {
            (Some(a), Some(b)) => Some(a.union(b)),
            _ => None,
        }),
{
    let ps = seq![piece] + rest;
    assert(ps[0] == piece);
    assert(ps.drop_first() =~= rest);
}

proof fn lemma_union_assoc(a: Set<u16>, b: Set<u16>, c: Set<u16>)
    ensures
        a.union(b).union(c) == a.union(b.union(c)),
{
    assert(a.union(b).union(c) =~= a.union(b.union(c)));
}

/// Walks the comma-separated pieces of `[inner_start, inner_end)`, marking
/// every piece's ports in the table; reports whether all pieces were valid.
fn scan_pieces(cs: &Vec<char>, inner_start: usize, inner_end: usize, present: &mut Vec<bool>) -> (ok:
    bool)
    requires
        inner_start <= inner_end <= cs@.len(),
        old(present)@.len() == 65536,
        forall|q: int| 0 <= q < 65536 ==> !old(present)@[q],
    ensures
        final (present)@.len() == 65536,
        !final (present)@[0],
        ok ==> pieces_union(split_sep(cs@.subrange(inner_start as int, inner_end as int), ','))
            == Some(table_set(final (present)@)),
        !ok ==> pieces_union(split_sep(cs@.subrange(inner_start as int, inner_end as int), ','))
            is None,
{
    let ghost inner = cs@.subrange(inner_start as int, inner_end as int);
    proof {
        match pieces_union(split_sep(inner, ',')) {
            Some(b) => {
                assert(table_set(present@).union(b) =~= b);
            },
            None => (),
        }
    }
    let mut pos = inner_start;
    let mut ok = true;
    loop
        invariant_except_break
            ok,
            inner_start <= pos <= inner_end <= cs@.len(),
            inner == cs@.subrange(inner_start as int, inner_end as int),
            present@.len() == 65536,
            !present@[0],
            pieces_union(split_sep(inner, ',')) == (match pieces_union(
                split_sep(cs@.subrange(pos as int, inner_end as int), ','),
            ) {
                Some(b) => Some(table_set(present@).union(b)),
                None => None,
            }),
        ensures
            present@.len() == 65536,
            !present@[0],
            ok ==> pieces_union(split_sep(inner, ',')) == Some(table_set(present@)),
            !ok ==> pieces_union(split_sep(inner, ',')) is None,
        decreases inner_end - pos,
    {
        let ghost rem = cs@.subrange(pos as int, inner_end as int);
        let ghost pre_set = table_set(present@);
        let piece_end: usize;
        let last: bool;
        match find_sep(cs, pos, inner_end, ',') {
            Some(k) => {
                piece_end = k;
                last = false;
                proof {
                    assert(split_sep(rem, ',') == seq![rem.subrange(0, k - pos)] + split_sep(
                        rem.skip(k - pos + 1),
                        ',',
                    ));
                    assert(rem.subrange(0, k - pos) =~= cs@.subrange(pos as int, k as int));
                    assert(rem.skip(k - pos + 1) =~= cs@.subrange(k as int + 1, inner_end as int));
                    lemma_pieces_union_cons(
                        cs@.subrange(pos as int, k as int),
                        split_sep(cs@.subrange(k as int + 1, inner_end as int), ','),
                    );
                }
            },
            None => {
                piece_end = inner_end;
                last = true;
                proof {
                    assert(split_sep(rem, ',') == seq![rem]);
                    assert(seq![rem] =~= seq![rem] + Seq::<Seq<char>>::empty());
                    lemma_pieces_union_cons(rem, Seq::<Seq<char>>::empty());
                }
            },
        }
        let ghost rest_pieces = if last {
            Seq::<Seq<char>>::empty()
        } else {
            split_sep(cs@.subrange(piece_end as int + 1, inner_end as int), ',')
        };
        proof {
            assert(pieces_union(split_sep(rem, ',')) == (match (
                item_ports(spec_trim(cs@.subrange(pos as int, piece_end as int))),
                pieces_union(rest_pieces),
            ) {
                (Some(a), Some(b)) => Some(a.union(b)),
                _ => None,
            }));
        }
        let itm = parse_item(cs, pos, piece_end);
        let x: u16;
        let y: u16;
        let incl: bool;
        match itm {
            Item::Bad => {
                ok = false;
                break ;
            },
            Item::One(p) => {
                x = p;
                y = p;
                incl = true;
            },
            Item::Incl(a, b) => {
                x = a;
                y = b;
                incl = true;
            },
            Item::Excl(a, b) => {
                x = a;
                y = b;
                incl = false;
            },
        }
        let ghost item_set = if incl {
            range_incl(x, y)
        } else {
            range_excl(x, y)
        };
        mark_range(present, x, y, incl);
        proof {
            assert(table_set(present@) =~= pre_set.union(item_set));
            match pieces_union(rest_pieces) {
                Some(b) => lemma_union_assoc(pre_set, item_set, b),
                None => (),
            }
        }
        if last {
            proof {
                match pieces_union(rest_pieces) {
                    Some(b) => {
                        assert(b =~= Set::<u16>::empty());
                        assert(item_set.union(b) =~= item_set);
                        assert(pre_set.union(item_set.union(b)) =~= table_set(present@));
                    },
                    None => (),
                }
            }
            break ;
        }
        pos = piece_end + 1;
    }
    ok
}

/// Parses the bracket contents `[inner_start, inner_end)`; `Some` exactly
/// when every piece is valid and their union is non-empty.
fn parse_bracketed(cs: &Vec<char>, inner_start: usize, inner_end: usize) -> (r: Option<Vec<u16>>)
    requires
        inner_start <= inner_end <= cs@.len(),
    ensures
        ({
            let pu = pieces_union(split_sep(cs@.subrange(inner_start as int, inner_end as int), ','));
            match r {
                Some(out) => {
                    &&& pu is Some
                    &&& pu.unwrap() != Set::<u16>::empty()
                    &&& out@.len() > 0
                    &&& forall|i: int, j: int| 0 <= i < j < out@.len() ==> out@[i] < out@[j]
                    &&& forall|i: int| 0 <= i < out@.len() ==> #[trigger] out@[i] >= 1
                    &&& forall|p: u16|
                        (exists|i: int| 0 <= i < out@.len() && out@[i] == p) <==> pu.unwrap().contains(p)
                },
                None => pu is None || pu == Some(Set::<u16>::empty()),
            }
        }),
{
    let mut present: Vec<bool> = vec![false; 65536];
    let ok = scan_pieces(cs, inner_start, inner_end, &mut present);
    if !ok {
        return None;
    }
    let ghost u = table_set(present@);
    let out = collect_ports(&present);
    if out.len() > 0 {
        proof {
            let q = out@[0];
            assert(q >= 1 && present@[q as int]);
            assert(u.contains(q));
            assert(u != Set::<u16>::empty());
            assert forall|p: u16|
                (exists|i: int| 0 <= i < out@.len() && out@[i] == p) <==> u.contains(p) by {
                assert(u.contains(p) == present@[p as int]);
            }
        }
        Some(out)
    } else {
        proof {
            assert forall|q: u16| !u.contains(q) by {
                if q >= 1 && present@[q as int] {
                    assert(exists|i: int| 0 <= i < out@.len() && out@[i] == q);
                }
            }
            assert(u =~= Set::<u16>::empty());
        }
        None
    }
}

/// The degenerate bare-port form, applied to the whole input.
fn parse_fallback(cs: &Vec<char>) -> (r: Result<PortsArray, PortsArrayParseError>)
    ensures
        r is Ok <==> fallback_ports(cs@) is Some,
        r matches Ok(pa) ==> pa.wf() && (forall|p: u16|
            pa.contains_port(p) <==> fallback_ports(cs@).unwrap().contains(p)),
{
    let n = cs.len();
    proof {
        assert(cs@.subrange(0, n as int) =~= cs@);
    }
    match parse_port_range(cs, 0, n) {
        Some(p) => {
            let mut v: Vec<u16> = Vec::new();
            v.push(p);
            let pa = PortsArray { ports: v };
            proof {
                assert(pa@ =~= seq![p]);
                assert forall|q: u16| pa.contains_port(q) <==> q == p by {
                    if q == p {
                        assert(pa@[0] == p);
                    }
                }
            }
            Ok(pa)
        },
        None => Err(PortsArrayParseError),
    }
}

impl PortsArray {
    /// Parses the port-set syntax.  `Ok` exactly when the string denotes a
    /// non-empty set of ports; the result then holds that set sorted
    /// ascending without duplicates.
    #[verifier::rlimit(100)]
    pub fn parse(s: &str) -> (r: Result<PortsArray, PortsArrayParseError>)
        ensures
            r is Ok <==> spec_ports_set(s@) is Some,
            r matches Ok(pa) ==> pa.wf() && (forall|p: u16|
                pa.contains_port(p) <==> spec_ports_set(s@).unwrap().contains(p)),
    {
        let cs = chars_of(s);
        let n = cs.len();
        proof {
            assert(cs@.subrange(0, n as int) =~= cs@);
        }
        let (lo, hi) = trim_indices(&cs, 0, n);
        let ghost t = spec_trim(s@);
        if hi - lo >= 2 && cs[lo] == '[' && cs[hi - 1] == ']' {
            proof {
                assert(t[0] == '[');
                assert(t.last() == ']');
                assert(t.subrange(1, t.len() - 1) =~= cs@.subrange(lo as int + 1, hi as int - 1));
            }
            match parse_bracketed(&cs, lo + 1, hi - 1) {
                Some(out) => {
                    let ghost u = pieces_union(split_sep(t.subrange(1, t.len() - 1), ',')).unwrap();
                    proof {
                        assert(spec_ports_set(s@) == Some(u));
                    }
                    let pa = PortsArray { ports: out };
                    proof {
                        assert(pa@ == out@);
                        assert(forall|p: u16| pa.contains_port(p) <==> u.contains(p));
                    }
                    return Ok(pa);
                },
                None => {
                    proof {
                        assert(spec_ports_set(s@) == fallback_ports(s@));
                    }
                },
            }
        } else {
            proof {
                assert(t.len() == hi - lo);
                assert(hi - lo >= 2 ==> t[0] == cs@[lo as int] && t.last() == cs@[hi - 1]);
                assert(spec_ports_set(s@) == fallback_ports(s@));
            }
        }
        assert(spec_ports_set(s@) == fallback_ports(s@));
        proof {
            assert(cs@ == s@);
        }
        parse_fallback(&cs)
    }

    /// Strictly ascending and in the port range: sorted, duplicate-free,
    /// every entry non-zero.
    pub open spec fn wf(&self) -> bool {
        &&& forall|i: int, j: int| 0 <= i < j < self@.len() ==> self@[i] < self@[j]
        &&& forall|i: int| 0 <= i < self@.len() ==> #[trigger] self@[i] >= 1
        &&& self@.len() > 0
    }

    pub open spec fn contains_port(&self, p: u16) -> bool {
        exists|i: int| 0 <= i < self@.len() && self@[i] == p
    }

    /// The ports, sorted ascending without duplicates.
    pub fn into_ports_vec(self) -> (r: Vec<u16>)
        ensures
            r@ == self@,
    {
        self.ports
    }

    /// Renders the set in the list syntax, compressing each run of three or
    /// more consecutive ports into an inclusive range.
    pub fn to_display_string(&self) -> (r: String)
        ensures
            r@ == spec_ports_display(self@),
    {
        let mut out = String::new();
        push_char(&mut out, '[');
        let n = self.ports.len();
        let mut i: usize = 0;
        proof {
            reveal_strlit(", ");
            reveal_strlit("..");
        }
        while i < n
            invariant
                n == self@.len(),
                0 <= i <= n,
                out@ + render_groups(self@, i as int) + seq![']'] == spec_ports_display(self@),
            decreases n - i,
        {
            let ghost pre = out@;
            let mut j: usize = i;
            while j + 1 < n && self.ports[j + 1] as u32 == self.ports[j] as u32 + 1
                invariant
                    n == self@.len(),
                    i <= j < n,
                    run_end(self@, i as int) == run_end(self@, j as int),
                decreases n - j,
            {
                j += 1;
            }
            proof {
                assert(run_end(self@, j as int) == j + 1);
            }
            let e = j + 1;
            if e - i <= 2 {
                let mut k = i;
                while k < e
                    invariant
                        n == self@.len(),
                        i <= k <= e <= n,
                        out@ == pre + render_entries(self@, i as int, k as int),
                    decreases e - k,
                {
                    if k > i {
                        out.append(", ");
                        proof {
                            reveal_strlit(", ");
                        }
                    }
                    push_dec_u64(&mut out, self.ports[k] as u64);
                    proof {
                        lemma_render_entries_snoc(self@, i as int, k as int);
                        if k > i {
                            assert(pre + render_entries(self@, i as int, k as int) + seq![
                                ',',
                                ' ',
                            ] + spec_dec(self@[k as int] as int) =~= pre + (render_entries(
                                self@,
                                i as int,
                                k as int,
                            ) + seq![',', ' '] + spec_dec(self@[k as int] as int)));
                        } else {
                            assert(pre + render_entries(self@, i as int, k as int) + spec_dec(
                                self@[k as int] as int,
                            ) =~= pre + (render_entries(self@, i as int, k as int) + spec_dec(
                                self@[k as int] as int,
                            )));
                        }
                    }
                    k += 1;
                }
            } else {
                push_dec_u64(&mut out, self.ports[i] as u64);
                out.append("..");
                push_dec_u64(&mut out, self.ports[e - 1] as u64);
                proof {
                    reveal_strlit("..");
                    assert(out@ =~= pre + (spec_dec(self@[i as int] as int) + seq!['.', '.']
                        + spec_dec(self@[e - 1] as int)));
                }
            }
            proof {
                assert(out@ == pre + render_run(self@, i as int, e as int));
            }
            if e < n {
                out.append(", ");
                proof {
                    reveal_strlit(", ");
                    assert(render_groups(self@, i as int) == render_run(self@, i as int, e as int)
                        + seq![',', ' '] + render_groups(self@, e as int));
                    assert(out@ + render_groups(self@, e as int) + seq![']'] =~= pre + render_groups(
                        self@,
                        i as int,
                    ) + seq![']']);
                }
            } else {
                proof {
                    assert(render_groups(self@, i as int) == render_run(self@, i as int, e as int));
                    assert(out@ + render_groups(self@, e as int) + seq![']'] =~= pre + render_groups(
                        self@,
                        i as int,
                    ) + seq![']']);
                }
            }
            i = e;
        }
        push_char(&mut out, ']');
        proof {
            assert(out@ =~= (out@.drop_last() + render_groups(self@, n as int)) + seq![']']);
        }
        out
    }
}

/// The index just past the run of consecutive values starting at `i`.
pub open spec fn run_end(ports: Seq<u16>, i: int) -> int
    decreases ports.len() - i,
{
    if 0 <= i && i + 1 < ports.len() && ports[i + 1] == ports[i] + 1 {
        run_end(ports, i + 1)
    } else {
        i + 1
    }
}

/// The entries of `[i, k)` rendered individually, comma-separated.
pub open spec fn render_entries(ports: Seq<u16>, i: int, k: int) -> Seq<char>
    decreases k - i,
{
    if k <= i {
        Seq::empty()
    } else if k == i + 1 {
        spec_dec(ports[i] as int)
    } else {
        render_entries(ports, i, k - 1) + seq![',', ' '] + spec_dec(ports[k - 1] as int)
    }
}

proof fn lemma_render_entries_snoc(ports: Seq<u16>, i: int, k: int)
    requires
        i <= k,
    ensures
        render_entries(ports, i, k + 1) == if k == i {
            spec_dec(ports[i] as int)
        } else {
            render_entries(ports, i, k) + seq![',', ' '] + spec_dec(ports[k] as int)
        },
{
}

/// One run `[i, e)`: short runs written out, longer ones as `first..last`.
pub open spec fn render_run(ports: Seq<u16>, i: int, e: int) -> Seq<char> {
    if e - i <= 2 {
        render_entries(ports, i, e)
    } else {
        spec_dec(ports[i] as int) + seq!['.', '.'] + spec_dec(ports[e - 1] as int)
    }
}

/// All runs from `i` on, comma-separated.
pub open spec fn render_groups(ports: Seq<u16>, i: int) -> Seq<char>
    decreases ports.len() - i,
    via render_groups_decreases
{
    if i < 0 || i >= ports.len() {
        Seq::empty()
    } else {
        let e = run_end(ports, i);
        if e < ports.len() {
            render_run(ports, i, e) + seq![',', ' '] + render_groups(ports, e)
        } else {
            render_run(ports, i, e)
        }
    }
}

#[via_fn]
proof fn render_groups_decreases(ports: Seq<u16>, i: int) {
    if 0 <= i < ports.len() {
        lemma_run_end_bounds(ports, i);
    }
}

proof fn lemma_run_end_bounds(ports: Seq<u16>, i: int)
    requires
        0 <= i < ports.len(),
    ensures
        i + 1 <= run_end(ports, i) <= ports.len(),
    decreases ports.len() - i,
{
    if i + 1 < ports.len() && ports[i + 1] == ports[i] + 1 {
        lemma_run_end_bounds(ports, i + 1);
    }
}

/// The whole rendering: the runs in brackets.
pub open spec fn spec_ports_display(ports: Seq<u16>) -> Seq<char> {
    seq!['['] + render_groups(ports, 0) + seq![']']
}

impl core::str::FromStr for PortsArray {
    type Err = PortsArrayParseError;

    fn from_str(s: &str) -> Result<Self, Self::Err> {
        PortsArray::parse(s)
    }
}

// ---------------------------------------------------------------------------
// Rendering and parsing are mutually inverse: parsing the displayed form of
// a port set yields exactly that set.
// ---------------------------------------------------------------------------
/// The set of values at positions `i` and beyond.
pub open spec fn tail_set(ps: Seq<u16>, i: int) -> Set<u16> {
    Set::new(|q: u16| exists|j: int| i <= j < ps.len() && #[trigger] ps[j] == q)
}

/// A decimal rendering is one or more digits carrying the same value.
proof fn lemma_spec_dec_wf(n: int)
    requires
        0 <= n,
    ensures
        spec_dec(n).len() >= 1,
        all_digits(spec_dec(n)),
        digits_val(spec_dec(n)) == n,
    decreases n,
{
    if n < 10 {
        assert(digit_char(n) as int == '0' as int + n);
        assert(is_digit(digit_char(n)));
        assert(spec_dec(n) =~= seq![digit_char(n)]);
        assert(spec_dec(n).drop_last() =~= Seq::<char>::empty());
        assert(digits_val(Seq::<char>::empty()) == 0);
        assert(spec_dec(n).last() == digit_char(n));
        assert(digits_val(spec_dec(n)) == digits_val(spec_dec(n).drop_last()) * 10 + digit_val(
            spec_dec(n).last(),
        ));
    } else {
        lemma_spec_dec_wf(n / 10);
        let s = spec_dec(n);
        assert(s == spec_dec(n / 10).push(digit_char(n % 10)));
        assert(digit_char(n % 10) as int == '0' as int + n % 10);
        assert(is_digit(digit_char(n % 10)));
        assert forall|i: int| 0 <= i < s.len() implies is_digit(#[trigger] s[i]) by {
            if i < s.len() - 1 {
                assert(s[i] == spec_dec(n / 10)[i]);
            }
        }
        assert(s.drop_last() =~= spec_dec(n / 10));
        assert(s.last() == digit_char(n % 10));
        assert(digits_val(s) == digits_val(spec_dec(n / 10)) * 10 + digit_val(digit_char(n % 10)));
    }
}

/// Digits are neither separators nor whitespace.
proof fn lemma_digit_chars_plain(s: Seq<char>)
    requires
        all_digits(s),
    ensures
        forall|i: int| 0 <= i < s.len() ==> s[i] != ',' && s[i] != '.' && !is_ws(#[trigger] s[i]),
{
    assert forall|i: int|
        0 <= i < s.len() implies s[i] != ',' && s[i] != '.' && !is_ws(#[trigger] s[i]) by {
        assert(is_digit(s[i]));
    }
}

/// Trimming text with clean edges changes nothing; one leading space goes.
proof fn lemma_trim_spaced(x: Seq<char>, sp: bool)
    requires
        x.len() > 0,
        !is_ws(x[0]),
        !is_ws(x.last()),
    ensures
        spec_trim(if sp {
            seq![' '] + x
        } else {
            x
        }) == x,
{
    let s = if sp {
        seq![' '] + x
    } else {
        x
    };
    if sp {
        assert(s[0] == ' ');
        assert(s[1] == x[0]);
        crate::text::lemma_trim_start_at(s, 1);
        assert(s.skip(1) =~= x);
    } else {
        crate::text::lemma_trim_start_at(s, 0);
        assert(s.skip(0) =~= s);
    }
    crate::text::lemma_trim_end_at(x, x.len() as int);
    assert(x.take(x.len() as int) =~= x);
}

/// A rendered port parses back to itself.
proof fn lemma_parse_port_dec(p: u16)
    requires
        p >= 1,
    ensures
        spec_parse_port(spec_dec(p as int)) == Some(p),
{
    lemma_spec_dec_wf(p as int);
}

/// A single rendered port is a one-port list element.
proof fn lemma_item_single(p: u16)
    requires
        p >= 1,
    ensures
        item_ports(spec_dec(p as int)) == Some(range_incl(p, p)),
{
    lemma_parse_port_dec(p);
    assert(set![p] =~= range_incl(p, p));
}

/// A rendered range `a..b` is a range list element.
proof fn lemma_item_range(a: u16, b: u16)
    requires
        a >= 1,
        b >= 1,
    ensures
        item_ports(spec_dec(a as int) + seq!['.', '.'] + spec_dec(b as int)) == Some(
            range_incl(a, b),
        ),
{
    let da = spec_dec(a as int);
    let db = spec_dec(b as int);
    let t = da + seq!['.', '.'] + db;
    lemma_spec_dec_wf(a as int);
    lemma_spec_dec_wf(b as int);
    lemma_digit_chars_plain(da);
    lemma_digit_chars_plain(db);
    // the element is not a bare port: it holds a dot
    assert(t[da.len() as int] == '.');
    assert(!is_digit('.'));
    assert(!all_digits(t));
    assert(spec_parse_u16(t) is None);
    // the first `..` sits right after the first number
    let pat = seq!['.', '.'];
    assert forall|j: int| 0 <= j < da.len() implies #[trigger] t.subrange(j, j + 2) != pat by {
        if t.subrange(j, j + 2) == pat {
            assert(t.subrange(j, j + 2)[0] == '.');
            assert(t[j] == da[j]);
            assert(da[j] != '.');
        }
    }
    assert(t.subrange(da.len() as int, da.len() as int + 2) =~= pat);
    lemma_find_sub_at(t, pat, da.len() as int);
    assert(t.subrange(0, da.len() as int) =~= da);
    assert(t.skip(da.len() as int + 2) =~= db);
    lemma_parse_port_dec(a);
    lemma_parse_port_dec(b);
}

/// Within a run, the values climb by exactly one per position.
proof fn lemma_run_progression(ps: Seq<u16>, i: int, j: int)
    requires
        0 <= i < ps.len(),
        i <= j < run_end(ps, i),
    ensures
        run_end(ps, i) <= ps.len(),
        ps[j] == ps[i] + (j - i),
    decreases j - i,
{
    lemma_run_end_bounds(ps, i);
    if j > i {
        assert(i + 1 < ps.len() && ps[i + 1] == ps[i] + 1) by {
            if !(i + 1 < ps.len() && ps[i + 1] == ps[i] + 1) {
                assert(run_end(ps, i) == i + 1);
            }
        }
        assert(run_end(ps, i) == run_end(ps, i + 1));
        lemma_run_progression(ps, i + 1, j);
    }
}

/// A run's inclusive range holds exactly the run's values.
proof fn lemma_run_set(ps: Seq<u16>, i: int)
    requires
        0 <= i < ps.len(),
    ensures
        range_incl(ps[i], ps[run_end(ps, i) - 1]) =~= Set::new(
            |q: u16| exists|j: int| i <= j < run_end(ps, i) && #[trigger] ps[j] == q,
        ),
{
    let e = run_end(ps, i);
    lemma_run_end_bounds(ps, i);
    lemma_run_progression(ps, i, e - 1);
    assert forall|q: u16|
        #[trigger] range_incl(ps[i], ps[e - 1]).contains(q) == Set::new(
            |q: u16| exists|j: int| i <= j < run_end(ps, i) && #[trigger] ps[j] == q,
        ).contains(q) by {
        if ps[i] <= q <= ps[e - 1] {
            let j = i + (q - ps[i]);
            lemma_run_progression(ps, i, j);
            assert(ps[j] == q);
        }
        if exists|j: int| i <= j < e && #[trigger] ps[j] == q {
            let j = choose|j: int| i <= j < e && #[trigger] ps[j] == q;
            lemma_run_progression(ps, i, j);
        }
    }
}

/// The values of positions `[i, mid)` together with the tail from `mid`
/// are the tail from `i`.
proof fn lemma_tail_split(ps: Seq<u16>, i: int, mid: int)
    requires
        0 <= i < mid <= ps.len(),
    ensures
        Set::new(|q: u16| exists|j: int| i <= j < mid && #[trigger] ps[j] == q).union(
            tail_set(ps, mid),
        ) =~= tail_set(ps, i),
{
    let head = Set::new(|q: u16| exists|j: int| i <= j < mid && #[trigger] ps[j] == q);
    assert forall|q: u16| head.union(tail_set(ps, mid)).contains(q) == tail_set(ps, i).contains(
        q,
    ) by {
        if head.contains(q) {
            let j = choose|j: int| i <= j < mid && #[trigger] ps[j] == q;
            assert(tail_set(ps, i).contains(q));
        }
        if tail_set(ps, mid).contains(q) {
            let j = choose|j: int| mid <= j < ps.len() && #[trigger] ps[j] == q;
            assert(tail_set(ps, i).contains(q));
        }
        if tail_set(ps, i).contains(q) {
            let j = choose|j: int| i <= j < ps.len() && #[trigger] ps[j] == q;
            if j < mid {
                assert(head.contains(q));
            } else {
                assert(tail_set(ps, mid).contains(q));
            }
        }
    }
}

/// A one-port range is the one-position run set.
proof fn lemma_single_run_set(ps: Seq<u16>, i: int)
    requires
        0 <= i < ps.len(),
    ensures
        range_incl(ps[i], ps[i]) =~= Set::new(
            |q: u16| exists|j: int| i <= j < i + 1 && #[trigger] ps[j] == q,
        ),
{
    assert forall|q: u16|
        range_incl(ps[i], ps[i]).contains(q) == Set::new(
            |q: u16| exists|j: int| i <= j < i + 1 && #[trigger] ps[j] == q,
        ).contains(q) by {
        if q == ps[i] {
            assert(i <= i < i + 1 && ps[i] == q);
        }
    }
}

/// The rendering from position `i`, split at commas and united, denotes
/// exactly the remaining values.  `sp` records whether one space from the
/// preceding separator still clings to the front.
#[verifier::rlimit(100)]
proof fn lemma_render_parses(ps: Seq<u16>, i: int, sp: bool)
    requires
        0 <= i < ps.len(),
        forall|j: int| 0 <= j < ps.len() ==> #[trigger] ps[j] >= 1,
    ensures
        pieces_union(
            split_sep(
                (if sp {
                    seq![' ']
                } else {
                    Seq::<char>::empty()
                }) + render_groups(ps, i),
                ',',
            ),
        ) == Some(tail_set(ps, i)),
    decreases ps.len() - i,
{
    let e = run_end(ps, i);
    lemma_run_end_bounds(ps, i);
    let prefix: Seq<char> = if sp {
        seq![' ']
    } else {
        Seq::<char>::empty()
    };
    let s = prefix + render_groups(ps, i);
    if e - i <= 2 && i + 1 < ps.len() {
        // a short run: its first value stands alone, and the rest of the
        // rendering is exactly the rendering from the next position
        let atom = spec_dec(ps[i] as int);
        lemma_spec_dec_wf(ps[i] as int);
        lemma_digit_chars_plain(atom);
        if e == i + 1 {
            assert(render_groups(ps, i) == render_run(ps, i, e) + seq![',', ' '] + render_groups(
                ps,
                e,
            ));
            assert(render_entries(ps, i, i + 1) == atom);
            assert(render_groups(ps, i) =~= atom + seq![',', ' '] + render_groups(ps, i + 1));
        } else {
            assert(e == i + 2);
            assert(i + 1 < ps.len() && ps[i + 1] == ps[i] + 1) by {
                if !(i + 1 < ps.len() && ps[i + 1] == ps[i] + 1) {
                    assert(run_end(ps, i) == i + 1);
                }
            }
            assert(run_end(ps, i + 1) == e);
            assert(render_run(ps, i, e) == render_entries(ps, i, i + 2));
            assert(render_entries(ps, i, i + 2) == render_entries(ps, i, i + 1) + seq![',', ' ']
                + spec_dec(ps[i + 1] as int));
            assert(render_entries(ps, i, i + 1) == atom);
            assert(render_run(ps, i + 1, e) == render_entries(ps, i + 1, i + 2));
            assert(render_entries(ps, i + 1, i + 2) == spec_dec(ps[i + 1] as int));
            if e < ps.len() {
                assert(render_groups(ps, i) == render_run(ps, i, e) + seq![',', ' ']
                    + render_groups(ps, e));
                assert(render_groups(ps, i + 1) == render_run(ps, i + 1, e) + seq![',', ' ']
                    + render_groups(ps, e));
                assert(render_groups(ps, i) =~= atom + seq![',', ' '] + render_groups(ps, i + 1));
            } else {
                assert(render_groups(ps, i) == render_run(ps, i, e));
                assert(render_groups(ps, i + 1) == render_run(ps, i + 1, e));
                assert(render_groups(ps, i) =~= atom + seq![',', ' '] + render_groups(ps, i + 1));
            }
        }
        let ci: int = prefix.len() as int + atom.len() as int;
        assert(s =~= prefix + atom + seq![',', ' '] + render_groups(ps, i + 1));
        assert forall|j: int| 0 <= j < ci implies s[j] != ',' by {
            if j < prefix.len() {
                assert(s[j] == ' ');
            } else {
                assert(s[j] == atom[j - prefix.len()]);
            }
        }
        assert(s[ci] == ',');
        crate::text::lemma_find_char_at(s, ',', ci);
        assert(split_sep(s, ',') == seq![s.subrange(0, ci)] + split_sep(s.skip(ci + 1), ','));
        assert(s.subrange(0, ci) =~= prefix + atom);
        assert(s.skip(ci + 1) =~= seq![' '] + render_groups(ps, i + 1));
        lemma_render_parses(ps, i + 1, true);
        lemma_pieces_union_cons(prefix + atom, split_sep(seq![' '] + render_groups(ps, i + 1), ','));
        assert(prefix + atom =~= (if sp {
            seq![' '] + atom
        } else {
            atom
        }));
        lemma_trim_spaced(atom, sp);
        assert(spec_trim(prefix + atom) == atom);
        lemma_item_single(ps[i]);
        lemma_single_run_set(ps, i);
        lemma_tail_split(ps, i, i + 1);
        assert(range_incl(ps[i], ps[i]).union(tail_set(ps, i + 1)) =~= tail_set(ps, i));
    } else {
        // the whole run is one atom, possibly followed by the next group
        let atom: Seq<char> = if e - i <= 2 {
            spec_dec(ps[i] as int)
        } else {
            spec_dec(ps[i] as int) + seq!['.', '.'] + spec_dec(ps[e - 1] as int)
        };
        lemma_spec_dec_wf(ps[i] as int);
        lemma_spec_dec_wf(ps[e - 1] as int);
        lemma_digit_chars_plain(spec_dec(ps[i] as int));
        lemma_digit_chars_plain(spec_dec(ps[e - 1] as int));
        let ghost runset = Set::new(|q: u16| exists|j: int| i <= j < e && #[trigger] ps[j] == q);
        if e - i <= 2 {
            assert(e == i + 1);
            assert(render_run(ps, i, e) == render_entries(ps, i, i + 1));
            assert(render_entries(ps, i, i + 1) == atom);
            lemma_item_single(ps[i]);
            lemma_single_run_set(ps, i);
            assert(item_ports(atom) == Some(range_incl(ps[i], ps[i])));
            assert(range_incl(ps[i], ps[i]) =~= runset);
        } else {
            assert(render_run(ps, i, e) == atom);
            lemma_item_range(ps[i], ps[e - 1]);
            lemma_run_set(ps, i);
            assert(item_ports(atom) == Some(range_incl(ps[i], ps[e - 1])));
            assert(range_incl(ps[i], ps[e - 1]) =~= runset);
        }
        // the atom holds no comma and has clean digit edges
        assert(atom.len() > 0);
        assert(atom[0] == spec_dec(ps[i] as int)[0]);
        assert(atom.last() == spec_dec(ps[e - 1] as int).last() || atom.last() == spec_dec(
            ps[i] as int,
        ).last());
        assert(!is_ws(atom[0]) && !is_ws(atom.last()));
        assert forall|j: int| 0 <= j < atom.len() implies atom[j] != ',' by {
            if e - i <= 2 {
                assert(atom[j] == spec_dec(ps[i] as int)[j]);
            } else {
                let da = spec_dec(ps[i] as int);
                let db = spec_dec(ps[e - 1] as int);
                if j < da.len() {
                    assert(atom[j] == da[j]);
                } else if j < da.len() + 2 {
                    assert(atom[j] == '.');
                } else {
                    assert(atom[j] == db[j - da.len() - 2]);
                }
            }
        }
        lemma_trim_spaced(atom, sp);
        if e < ps.len() {
            assert(render_groups(ps, i) == render_run(ps, i, e) + seq![',', ' '] + render_groups(
                ps,
                e,
            ));
            let ci: int = prefix.len() as int + atom.len() as int;
            assert(s =~= prefix + atom + seq![',', ' '] + render_groups(ps, e));
            assert forall|j: int| 0 <= j < ci implies s[j] != ',' by {
                if j < prefix.len() {
                    assert(s[j] == ' ');
                } else {
                    assert(s[j] == atom[j - prefix.len()]);
                }
            }
            assert(s[ci] == ',');
            crate::text::lemma_find_char_at(s, ',', ci);
            assert(split_sep(s, ',') == seq![s.subrange(0, ci)] + split_sep(s.skip(ci + 1), ','));
            assert(s.subrange(0, ci) =~= prefix + atom);
            assert(s.skip(ci + 1) =~= seq![' '] + render_groups(ps, e));
            lemma_render_parses(ps, e, true);
            lemma_pieces_union_cons(prefix + atom, split_sep(seq![' '] + render_groups(ps, e), ','));
            assert(prefix + atom =~= (if sp {
                seq![' '] + atom
            } else {
                atom
            }));
            assert(spec_trim(prefix + atom) == atom);
            lemma_tail_split(ps, i, e);
            assert(runset.union(tail_set(ps, e)) =~= tail_set(ps, i));
        } else {
            assert(render_groups(ps, i) == render_run(ps, i, e));
            assert(s =~= prefix + atom);
            assert forall|j: int| 0 <= j < s.len() implies s[j] != ',' by {
                if j < prefix.len() {
                    assert(s[j] == ' ');
                } else {
                    assert(s[j] == atom[j - prefix.len()]);
                }
            }
            crate::text::lemma_find_char_none(s, ',');
            assert(split_sep(s, ',') == seq![s]);
            assert(seq![s] =~= seq![s] + Seq::<Seq<char>>::empty());
            lemma_pieces_union_cons(s, Seq::<Seq<char>>::empty());
            assert(prefix + atom =~= (if sp {
                seq![' '] + atom
            } else {
                atom
            }));
            assert(spec_trim(s) == atom);
            assert(runset.union(Set::<u16>::empty()) =~= runset);
            assert(runset =~= tail_set(ps, i));
        }
    }
}

/// Rendering then parsing is the identity on port sets: the set a
/// displayed `PortsArray` denotes is exactly the array's own set of
/// values, so parsing is idempotent across a display round trip.
pub proof fn lemma_display_parse_round_trip(ps: Seq<u16>)
    requires
        ps.len() > 0,
        forall|j: int| 0 <= j < ps.len() ==> #[trigger] ps[j] >= 1,
    ensures
        spec_ports_set(spec_ports_display(ps)) == Some(tail_set(ps, 0)),
{
    let d = spec_ports_display(ps);
    let body = render_groups(ps, 0);
    assert(d == seq!['['] + body + seq![']']);
    assert(d.len() >= 2);
    assert(d[0] == '[');
    assert(d.last() == ']');
    assert(!is_ws(d[0]) && !is_ws(d.last()));
    lemma_trim_spaced(d, false);
    assert(Seq::<char>::empty() + d =~= d);
    let t = spec_trim(d);
    assert(t == d);
    assert(t.subrange(1, t.len() - 1) =~= body);
    assert(Seq::<char>::empty() + body =~= body);
    lemma_render_parses(ps, 0, false);
    assert(pieces_union(split_sep(body, ',')) == Some(tail_set(ps, 0)));
    assert(tail_set(ps, 0).contains(ps[0]));
    assert(tail_set(ps, 0) != Set::<u16>::empty());
}

} // verus!
