//! IP addresses and socket addresses as plain values: a v4 address is its
//! 32-bit value, a v6 address its 128-bit value.  Parsing and formatting of
//! the literal forms live here too.

use vstd::prelude::*;

use crate::text::{
    all_digits, digits_val, find_last_sep, find_pat, find_sep, find_sub, is_digit,
    lemma_split_sep_last, lemma_split_sep_len, push_char, push_dec_u64, push_hex_u16, spec_dec,
    spec_hex, split_sep,
};

verus! {

/// An IP address, either family, as a plain machine value.
#[derive(Clone, Copy, PartialEq, Eq, Structural, Debug, Hash)]
pub enum IpAddress {
    V4(u32),
    V6(u128),
}

/// An address and port pair.
#[derive(Clone, Copy, PartialEq, Eq, Structural, Debug, Hash)]
pub struct SocketAddress {
    pub ip: IpAddress,
    pub port: u16,
}

/// The 32-bit value of the dotted quad `a.b.c.d`.
pub open spec fn ipv4_value(a: int, b: int, c: int, d: int) -> int {
    ((a * 256 + b) * 256 + c) * 256 + d
}

impl IpAddress {
    /// The v4 address `a.b.c.d`.
    pub fn v4_from_octets(a: u8, b: u8, c: u8, d: u8) -> (r: Self)
        ensures
            r == IpAddress::V4(ipv4_value(a as int, b as int, c as int, d as int) as u32),
    {
        IpAddress::V4(((a as u32 * 256 + b as u32) * 256 + c as u32) * 256 + d as u32)
    }

    /// The v4 octets of a v4 address, most significant first.
    pub fn v4_octets(v: u32) -> (r: (u8, u8, u8, u8))
        ensures
            ipv4_value(r.0 as int, r.1 as int, r.2 as int, r.3 as int) == v as int,
    {
        let a = v / 16777216;
        let b = (v / 65536) % 256;
        let c = (v / 256) % 256;
        let d = v % 256;
        (a as u8, b as u8, c as u8, d as u8)
    }
}

// ---------------------------------------------------------------------------
// The v4 literal: four decimal octets separated by dots, each of one to
// three digits without a superfluous leading zero.
// ---------------------------------------------------------------------------
/// A decimal octet: `0`..`255`, no leading zero.
pub open spec fn spec_parse_octet(s: Seq<char>) -> Option<u8> {
    if 1 <= s.len() <= 3 && all_digits(s) && (s[0] != '0' || s.len() == 1) && digits_val(s) <= 255 {
        Some(digits_val(s) as u8)
    } else {
        None
    }
}

/// The v4 literal's value, if `s` is one.
pub open spec fn spec_parse_ipv4(s: Seq<char>) -> Option<u32> {
    let parts = split_sep(s, '.');
    if parts.len() == 4 && spec_parse_octet(parts[0]) is Some && spec_parse_octet(parts[1]) is Some
        && spec_parse_octet(parts[2]) is Some && spec_parse_octet(parts[3]) is Some {
        Some(
            ipv4_value(
                spec_parse_octet(parts[0]).unwrap() as int,
                spec_parse_octet(parts[1]).unwrap() as int,
                spec_parse_octet(parts[2]).unwrap() as int,
                spec_parse_octet(parts[3]).unwrap() as int,
            ) as u32,
        )
    } else {
        None
    }
}

/// Parses `[start, end)` of `cs` as a decimal octet.
fn parse_octet(cs: &Vec<char>, start: usize, end: usize) -> (r: Option<u8>)
    requires
        start <= end <= cs@.len(),
    ensures
        r == spec_parse_octet(cs@.subrange(start as int, end as int)),
{
    let ghost sub = cs@.subrange(start as int, end as int);
    let len = end - start;
    if len < 1 || len > 3 {
        return None;
    }
    let mut acc: u32 = 0;
    let mut i: usize = 0;
    while i < len
        invariant
            start + len == end,
            end <= cs@.len(),
            1 <= len <= 3,
            0 <= i <= len,
            sub == cs@.subrange(start as int, end as int),
            all_digits(sub.subrange(0, i as int)),
            acc == digits_val(sub.subrange(0, i as int)),
            i == 0 ==> acc == 0,
            i == 1 ==> acc <= 9,
            i == 2 ==> acc <= 99,
            i == 3 ==> acc <= 999,
        decreases len - i,
    {
        let c = cs[start + i];
        proof {
            assert(sub[i as int] == cs@[start + i]);
        }
        if !('0' <= c && c <= '9') {
            assert(!is_digit(sub[i as int]));
            return None;
        }
        let ghost pre = sub.subrange(0, i as int);
        let ghost cur = sub.subrange(0, i as int + 1);
        proof {
            assert(cur.drop_last() =~= pre);
            assert(cur.last() == sub[i as int]);
            assert forall|j: int| 0 <= j < i + 1 implies is_digit(cur[j]) by {
                if j < i {
                    assert(cur[j] == pre[j]);
                }
            }
        }
        acc = acc * 10 + ((c as u32) - ('0' as u32));
        i += 1;
    }
    proof {
        assert(sub.subrange(0, len as int) =~= sub);
    }
    if acc > 255 {
        return None;
    }
    let first = cs[start];
    proof {
        assert(sub[0] == cs@[start as int]);
    }
    if first == '0' && len != 1 {
        return None;
    }
    Some(acc as u8)
}

/// Parses `[start, end)` of `cs` as a v4 literal.
pub(crate) fn parse_ipv4(cs: &Vec<char>, start: usize, end: usize) -> (r: Option<u32>)
    requires
        start <= end <= cs@.len(),
    ensures
        r == spec_parse_ipv4(cs@.subrange(start as int, end as int)),
{
    let ghost sub = cs@.subrange(start as int, end as int);
    let ghost parts = split_sep(sub, '.');
    let p1 = match find_sep(cs, start, end, '.') {
        Some(k) => k,
        None => {
            proof {
                assert(parts == seq![sub]);
            }
            return None;
        },
    };
    proof {
        assert(parts == seq![sub.subrange(0, p1 - start)] + split_sep(
            sub.skip(p1 - start + 1),
            '.',
        ));
        assert(sub.subrange(0, p1 - start) =~= cs@.subrange(start as int, p1 as int));
        assert(sub.skip(p1 - start + 1) =~= cs@.subrange(p1 as int + 1, end as int));
    }
    let ghost sub1 = cs@.subrange(p1 as int + 1, end as int);
    let p2 = match find_sep(cs, p1 + 1, end, '.') {
        Some(k) => k,
        None => {
            proof {
                assert(split_sep(sub1, '.') == seq![sub1]);
                assert(parts.len() == 2);
            }
            return None;
        },
    };
    proof {
        assert(split_sep(sub1, '.') == seq![sub1.subrange(0, p2 - p1 - 1)] + split_sep(
            sub1.skip(p2 - p1),
            '.',
        ));
        assert(sub1.subrange(0, p2 - p1 - 1) =~= cs@.subrange(p1 as int + 1, p2 as int));
        assert(sub1.skip(p2 - p1) =~= cs@.subrange(p2 as int + 1, end as int));
    }
    let ghost sub2 = cs@.subrange(p2 as int + 1, end as int);
    let p3 = match find_sep(cs, p2 + 1, end, '.') {
        Some(k) => k,
        None => {
            proof {
                assert(split_sep(sub2, '.') == seq![sub2]);
                assert(parts.len() == 3);
            }
            return None;
        },
    };
    proof {
        assert(split_sep(sub2, '.') == seq![sub2.subrange(0, p3 - p2 - 1)] + split_sep(
            sub2.skip(p3 - p2),
            '.',
        ));
        assert(sub2.subrange(0, p3 - p2 - 1) =~= cs@.subrange(p2 as int + 1, p3 as int));
        assert(sub2.skip(p3 - p2) =~= cs@.subrange(p3 as int + 1, end as int));
    }
    let ghost sub3 = cs@.subrange(p3 as int + 1, end as int);
    if let Some(k) = find_sep(cs, p3 + 1, end, '.') {
        proof {
            lemma_split_sep_len(sub3.skip(k - p3), '.');
            assert(split_sep(sub3, '.').len() >= 2);
            assert(parts.len() >= 5);
        }
        return None;
    }
    proof {
        assert(split_sep(sub3, '.') == seq![sub3]);
        assert(parts.len() == 4);
        assert(parts[0] == cs@.subrange(start as int, p1 as int));
        assert(parts[1] == cs@.subrange(p1 as int + 1, p2 as int));
        assert(parts[2] == cs@.subrange(p2 as int + 1, p3 as int));
        assert(parts[3] == cs@.subrange(p3 as int + 1, end as int));
    }
    let a = parse_octet(cs, start, p1);
    let b = parse_octet(cs, p1 + 1, p2);
    let c = parse_octet(cs, p2 + 1, p3);
    let d = parse_octet(cs, p3 + 1, end);
    match (a, b, c, d) {
        (Some(a), Some(b), Some(c), Some(d)) => Some(
            ((a as u32 * 256 + b as u32) * 256 + c as u32) * 256 + d as u32,
        ),
        _ => None,
    }
}

// ---------------------------------------------------------------------------
// Textual form: a v4 address as its dotted quad, a v6 address as its eight
// colon-separated hexadecimal groups, written in full.
// ---------------------------------------------------------------------------
/// The dotted-quad rendering of a v4 value.
pub open spec fn spec_ipv4_display(v: int) -> Seq<char> {
    spec_dec(v / 0x100_0000) + seq!['.'] + spec_dec((v / 0x1_0000) % 256) + seq!['.'] + spec_dec(
        (v / 256) % 256,
    ) + seq!['.'] + spec_dec(v % 256)
}

/// The group of `v` at position `i` (most significant group first).
pub open spec fn v6_group(v: int, i: int) -> int {
    if i == 0 {
        (v / 0x1_0000_0000_0000_0000_0000_0000_0000) % 0x1_0000
    } else if i == 1 {
        (v / 0x1_0000_0000_0000_0000_0000_0000) % 0x1_0000
    } else if i == 2 {
        (v / 0x1_0000_0000_0000_0000_0000) % 0x1_0000
    } else if i == 3 {
        (v / 0x1_0000_0000_0000_0000) % 0x1_0000
    } else if i == 4 {
        (v / 0x1_0000_0000_0000) % 0x1_0000
    } else if i == 5 {
        (v / 0x1_0000_0000) % 0x1_0000
    } else if i == 6 {
        (v / 0x1_0000) % 0x1_0000
    } else {
        v % 0x1_0000
    }
}

/// The full eight-group rendering of a v6 value.
pub open spec fn spec_ipv6_display(v: int) -> Seq<char> {
    spec_hex(v6_group(v, 0)) + seq![':'] + spec_hex(v6_group(v, 1)) + seq![':'] + spec_hex(
        v6_group(v, 2),
    ) + seq![':'] + spec_hex(v6_group(v, 3)) + seq![':'] + spec_hex(v6_group(v, 4)) + seq![':']
        + spec_hex(v6_group(v, 5)) + seq![':'] + spec_hex(v6_group(v, 6)) + seq![':'] + spec_hex(
        v6_group(v, 7),
    )
}

/// The textual form of an address.
pub open spec fn spec_ip_display(ip: IpAddress) -> Seq<char> {
    match ip {
        IpAddress::V4(v) => spec_ipv4_display(v as int),
        IpAddress::V6(v) => spec_ipv6_display(v as int),
    }
}

impl IpAddress {
    /// Renders the address onto the end of `out`.
    #[verifier::rlimit(100)]
    pub fn push_display(&self, out: &mut String)
        ensures
            final (out)@ == old(out)@ + spec_ip_display(*self),
    {
        match self {
            IpAddress::V4(v) => {
                let v = *v;
                push_dec_u64(out, (v / 0x100_0000) as u64);
                push_char(out, '.');
                push_dec_u64(out, ((v / 0x1_0000) % 256) as u64);
                push_char(out, '.');
                push_dec_u64(out, ((v / 256) % 256) as u64);
                push_char(out, '.');
                push_dec_u64(out, (v % 256) as u64);
                proof {
                    assert(final (out)@ =~= old(out)@ + spec_ipv4_display(v as int));
                }
            },
            IpAddress::V6(v) => {
                let v = *v;
                push_hex_u16(out, ((v / 0x1_0000_0000_0000_0000_0000_0000_0000) % 0x1_0000) as u16);
                push_char(out, ':');
                push_hex_u16(out, ((v / 0x1_0000_0000_0000_0000_0000_0000) % 0x1_0000) as u16);
                push_char(out, ':');
                push_hex_u16(out, ((v / 0x1_0000_0000_0000_0000_0000) % 0x1_0000) as u16);
                push_char(out, ':');
                push_hex_u16(out, ((v / 0x1_0000_0000_0000_0000) % 0x1_0000) as u16);
                push_char(out, ':');
                push_hex_u16(out, ((v / 0x1_0000_0000_0000) % 0x1_0000) as u16);
                push_char(out, ':');
                push_hex_u16(out, ((v / 0x1_0000_0000) % 0x1_0000) as u16);
                push_char(out, ':');
                push_hex_u16(out, ((v / 0x1_0000) % 0x1_0000) as u16);
                push_char(out, ':');
                push_hex_u16(out, (v % 0x1_0000) as u16);
                proof {
                    assert(final (out)@ =~= old(out)@ + spec_ipv6_display(v as int));
                }
            },
        }
    }

    /// The textual form of the address.
    pub fn to_display_string(&self) -> (r: String)
        ensures
            r@ == spec_ip_display(*self),
    {
        let mut out = String::new();
        self.push_display(&mut out);
        proof {
            assert(Seq::<char>::empty() + spec_ip_display(*self) =~= spec_ip_display(*self));
        }
        out
    }
}

// ---------------------------------------------------------------------------
// The v6 literal: colon-separated groups of one to four hexadecimal digits,
// with at most one `::` standing for the missing zero groups, and the final
// piece optionally an embedded dotted quad for the last two groups.
// ---------------------------------------------------------------------------
pub open spec fn is_hex_digit(c: char) -> bool {
    ('0' <= c && c <= '9') || ('a' <= c && c <= 'f') || ('A' <= c && c <= 'F')
}

pub open spec fn hex_digit_val(c: char) -> int {
    if '0' <= c && c <= '9' {
        c as int - '0' as int
    } else if 'a' <= c && c <= 'f' {
        c as int - 'a' as int + 10
    } else {
        c as int - 'A' as int + 10
    }
}

pub open spec fn all_hex(s: Seq<char>) -> bool {
    forall|i: int| 0 <= i < s.len() ==> is_hex_digit(#[trigger] s[i])
}

/// Value of a hexadecimal digit string.
pub open spec fn hex_val(s: Seq<char>) -> int
    decreases s.len(),
{
    if s.len() == 0 {
        0
    } else {
        hex_val(s.drop_last()) * 16 + hex_digit_val(s.last())
    }
}

/// One v6 group: one to four hexadecimal digits.
pub open spec fn spec_parse_group(s: Seq<char>) -> Option<u16> {
    if 1 <= s.len() <= 4 && all_hex(s) {
        Some(hex_val(s) as u16)
    } else {
        None
    }
}

pub open spec fn groups_ok(parts: Seq<Seq<char>>) -> bool {
    forall|i: int| 0 <= i < parts.len() ==> spec_parse_group(#[trigger] parts[i]) is Some
}

pub open spec fn group_vals(parts: Seq<Seq<char>>) -> Seq<u16> {
    Seq::new(parts.len(), |i: int| spec_parse_group(parts[i]).unwrap())
}

/// The 128-bit value of a group sequence, most significant group first.
pub open spec fn v6_val(gs: Seq<u16>) -> int
    decreases gs.len(),
{
    if gs.len() == 0 {
        0
    } else {
        v6_val(gs.drop_last()) * 0x1_0000 + gs.last()
    }
}

/// The two group values an embedded dotted quad stands for.
pub open spec fn quad_groups(v: u32) -> Seq<u16> {
    seq![(v / 0x1_0000) as u16, (v % 0x1_0000) as u16]
}

/// The v6 literal's value, if `s` is one.  The final colon-separated piece
/// may be an embedded dotted quad standing for the last two groups.
pub open spec fn spec_parse_ipv6(s: Seq<char>) -> Option<u128> {
    match find_sub(s, seq![':', ':']) {
        Some(i) => {
            let l = s.subrange(0, i);
            let rr = s.skip(i + 2);
            if find_sub(rr, seq![':', ':']) is Some {
                None
            } else {
                let lg = if l.len() == 0 {
                    Seq::<Seq<char>>::empty()
                } else {
                    split_sep(l, ':')
                };
                if rr.len() == 0 {
                    if groups_ok(lg) && lg.len() <= 7 {
                        Some(
                            v6_val(
                                group_vals(lg) + Seq::new((8 - lg.len()) as nat, |i: int| 0u16),
                            ) as u128,
                        )
                    } else {
                        None
                    }
                } else {
                    let rparts = split_sep(rr, ':');
                    if groups_ok(lg) && groups_ok(rparts) && lg.len() + rparts.len() <= 7 {
                        Some(
                            v6_val(
                                group_vals(lg) + Seq::new(
                                    (8 - lg.len() - rparts.len()) as nat,
                                    |i: int| 0u16,
                                ) + group_vals(rparts),
                            ) as u128,
                        )
                    } else if groups_ok(lg) && groups_ok(rparts.drop_last()) && spec_parse_ipv4(
                        rparts.last(),
                    ) is Some && lg.len() + (rparts.len() - 1) + 2 <= 8 {
                        Some(
                            v6_val(
                                group_vals(lg) + Seq::new(
                                    (8 - lg.len() - (rparts.len() - 1) - 2) as nat,
                                    |i: int| 0u16,
                                ) + group_vals(rparts.drop_last()) + quad_groups(
                                    spec_parse_ipv4(rparts.last()).unwrap(),
                                ),
                            ) as u128,
                        )
                    } else {
                        None
                    }
                }
            }
        },
        None => {
            let parts = split_sep(s, ':');
            if parts.len() == 8 && groups_ok(parts) {
                Some(v6_val(group_vals(parts)) as u128)
            } else if parts.len() == 7 && groups_ok(parts.drop_last()) && spec_parse_ipv4(
                parts.last(),
            ) is Some {
                Some(
                    v6_val(
                        group_vals(parts.drop_last()) + quad_groups(
                            spec_parse_ipv4(parts.last()).unwrap(),
                        ),
                    ) as u128,
                )
            } else {
                None
            }
        },
    }
}

/// A group sequence of at most eight groups stays below `2^128`.
proof fn lemma_v6_val_bound(gs: Seq<u16>)
    requires
        gs.len() <= 8,
    ensures
        0 <= v6_val(gs),
        v6_val(gs) < pow16(gs.len() as int),
    decreases gs.len(),
{
    if gs.len() > 0 {
        lemma_v6_val_bound(gs.drop_last());
    }
}

/// `0x1_0000` to the power `n`.
pub open spec fn pow16(n: int) -> int
    decreases n,
{
    if n <= 0 {
        1
    } else {
        0x1_0000 * pow16(n - 1)
    }
}

proof fn lemma_pow16_values()
    ensures
        pow16(8) == 0x1_0000_0000_0000_0000_0000_0000_0000_0000,
        pow16(7) == 0x1_0000_0000_0000_0000_0000_0000_0000,
{
    assert(pow16(0) == 1);
    assert(pow16(1) == 0x1_0000);
    assert(pow16(2) == 0x1_0000_0000);
    assert(pow16(3) == 0x1_0000_0000_0000);
    assert(pow16(4) == 0x1_0000_0000_0000_0000);
    assert(pow16(5) == 0x1_0000_0000_0000_0000_0000);
    assert(pow16(6) == 0x1_0000_0000_0000_0000_0000_0000);
    assert(pow16(7) == 0x1_0000_0000_0000_0000_0000_0000_0000);
    assert(pow16(8) == 0x1_0000_0000_0000_0000_0000_0000_0000_0000);
}

/// Parses `[start, end)` of `cs` as one v6 group.
fn parse_group(cs: &Vec<char>, start: usize, end: usize) -> (r: Option<u16>)
    requires
        start <= end <= cs@.len(),
    ensures
        r == spec_parse_group(cs@.subrange(start as int, end as int)),
{
    let ghost sub = cs@.subrange(start as int, end as int);
    let len = end - start;
    if len < 1 || len > 4 {
        return None;
    }
    let mut acc: u32 = 0;
    let mut i: usize = 0;
    while i < len
        invariant
            start + len == end,
            end <= cs@.len(),
            1 <= len <= 4,
            0 <= i <= len,
            sub == cs@.subrange(start as int, end as int),
            all_hex(sub.subrange(0, i as int)),
            acc == hex_val(sub.subrange(0, i as int)),
            i == 0 ==> acc == 0,
            i == 1 ==> acc <= 0xf,
            i == 2 ==> acc <= 0xff,
            i == 3 ==> acc <= 0xfff,
            i == 4 ==> acc <= 0xffff,
        decreases len - i,
    {
        let c = cs[start + i];
        proof {
            assert(sub[i as int] == cs@[start + i]);
        }
        let d: u32 = if '0' <= c && c <= '9' {
            (c as u32) - ('0' as u32)
        } else if 'a' <= c && c <= 'f' {
            (c as u32) - ('a' as u32) + 10
        } else if 'A' <= c && c <= 'F' {
            (c as u32) - ('A' as u32) + 10
        } else {
            assert(!is_hex_digit(sub[i as int]));
            return None;
        };
        let ghost pre = sub.subrange(0, i as int);
        let ghost cur = sub.subrange(0, i as int + 1);
        proof {
            assert(cur.drop_last() =~= pre);
            assert(cur.last() == sub[i as int]);
            assert forall|j: int| 0 <= j < i + 1 implies is_hex_digit(cur[j]) by {
                if j < i {
                    assert(cur[j] == pre[j]);
                }
            }
        }
        acc = acc * 16 + d;
        i += 1;
    }
    proof {
        assert(sub.subrange(0, len as int) =~= sub);
    }
    Some(acc as u16)
}

/// Collects the colon-separated groups of `[start, end)`; `None` as soon as
/// one piece is not a valid group.
fn collect_groups(cs: &Vec<char>, start: usize, end: usize) -> (r: Option<Vec<u16>>)
    requires
        start <= end <= cs@.len(),
    ensures
        ({
            let parts = split_sep(cs@.subrange(start as int, end as int), ':');
            match r {
                Some(vals) => groups_ok(parts) && vals@ == group_vals(parts),
                None => !groups_ok(parts),
            }
        }),
{
    let ghost whole = cs@.subrange(start as int, end as int);
    let ghost parts = split_sep(whole, ':');
    let ghost mut done: Seq<Seq<char>> = Seq::empty();
    let mut vals: Vec<u16> = Vec::new();
    let mut pos = start;
    proof {
        assert(parts =~= done + split_sep(cs@.subrange(pos as int, end as int), ':'));
        assert(vals@ =~= group_vals(done));
    }
    loop
        invariant_except_break
            start <= pos <= end <= cs@.len(),
            whole == cs@.subrange(start as int, end as int),
            parts == split_sep(whole, ':'),
            parts == done + split_sep(cs@.subrange(pos as int, end as int), ':'),
            done.len() == vals@.len(),
            groups_ok(done),
            vals@ == group_vals(done),
        ensures
            groups_ok(parts),
            vals@ == group_vals(parts),
        decreases end - pos,
    {
        let piece_end: usize;
        let last: bool;
        let ghost rem = cs@.subrange(pos as int, end as int);
        match find_sep(cs, pos, end, ':') {
            Some(k) => {
                piece_end = k;
                last = false;
                proof {
                    assert(split_sep(rem, ':') == seq![rem.subrange(0, k - pos)] + split_sep(
                        rem.skip(k - pos + 1),
                        ':',
                    ));
                    assert(rem.subrange(0, k - pos) =~= cs@.subrange(pos as int, k as int));
                    assert(rem.skip(k - pos + 1) =~= cs@.subrange(k as int + 1, end as int));
                }
            },
            None => {
                piece_end = end;
                last = true;
                proof {
                    assert(split_sep(rem, ':') == seq![rem]);
                    assert(rem =~= cs@.subrange(pos as int, piece_end as int));
                }
            },
        }
        let ghost piece = cs@.subrange(pos as int, piece_end as int);
        let ghost rest = if last {
            Seq::<Seq<char>>::empty()
        } else {
            split_sep(cs@.subrange(piece_end as int + 1, end as int), ':')
        };
        proof {
            if last {
                assert(seq![piece] + rest =~= seq![piece]);
            }
            assert(split_sep(rem, ':') == seq![piece] + rest);
            assert(parts == done + (seq![piece] + rest));
            assert(parts[done.len() as int] == (seq![piece] + rest)[0]);
            assert(parts[done.len() as int] == piece);
        }
        match parse_group(cs, pos, piece_end) {
            Some(g) => {
                vals.push(g);
                proof {
                    let done2 = done.push(piece);
                    assert(parts =~= done2 + rest);
                    assert forall|i: int|
                        0 <= i < done2.len() implies spec_parse_group(#[trigger] done2[i]) is Some by {
                        if i < done.len() {
                            assert(done2[i] == done[i]);
                        }
                    }
                    assert(vals@ =~= group_vals(done2)) by {
                        assert(forall|i: int|
                            0 <= i < done.len() ==> #[trigger] group_vals(done2)[i] == group_vals(
                                done,
                            )[i]);
                        assert(group_vals(done2)[done.len() as int] == g);
                    }
                    done = done2;
                }
            },
            None => {
                proof {
                    assert(spec_parse_group(parts[done.len() as int]) is None);
                    assert(!groups_ok(parts));
                }
                return None;
            },
        }
        if last {
            proof {
                assert(parts =~= done);
            }
            break ;
        }
        pos = piece_end + 1;
    }
    Some(vals)
}

proof fn lemma_pow16_mono(a: int, b: int)
    requires
        0 <= a <= b,
    ensures
        1 <= pow16(a) <= pow16(b),
    decreases b,
{
    if a < b {
        lemma_pow16_mono(a, b - 1);
    } else {
        if a > 0 {
            lemma_pow16_mono(0, a - 1);
        }
    }
}

/// Folds at most eight groups into the 128-bit address value.
fn fold_groups(vals: &Vec<u16>) -> (r: u128)
    requires
        vals@.len() <= 8,
    ensures
        r == v6_val(vals@),
{
    proof {
        lemma_pow16_values();
    }
    let n = vals.len();
    let mut acc: u128 = 0;
    let mut i: usize = 0;
    while i < n
        invariant
            n == vals@.len() <= 8,
            0 <= i <= n,
            acc == v6_val(vals@.subrange(0, i as int)),
            acc < pow16(i as int),
            pow16(8) == 0x1_0000_0000_0000_0000_0000_0000_0000_0000,
        decreases n - i,
    {
        let g = vals[i];
        proof {
            lemma_pow16_mono(i as int + 1, 8);
            assert(pow16(i as int + 1) == 0x1_0000 * pow16(i as int));
        }
        acc = acc * 0x1_0000 + (g as u128);
        proof {
            let pre = vals@.subrange(0, i as int);
            let cur = vals@.subrange(0, i as int + 1);
            assert(cur.drop_last() =~= pre);
            assert(cur.last() == vals@[i as int]);
        }
        i += 1;
    }
    proof {
        assert(vals@.subrange(0, n as int) =~= vals@);
    }
    acc
}

/// Concatenates the group vectors — with the zeros the `::` stands for
/// between the first two — and folds them into the address value.
fn assemble_v6(lv: &Vec<u16>, mid_zeros: usize, pv: &Vec<u16>, tail: &Vec<u16>) -> (r: u128)
    requires
        lv@.len() + mid_zeros + pv@.len() + tail@.len() == 8,
    ensures
        r == v6_val(lv@ + Seq::new(mid_zeros as nat, |i: int| 0u16) + pv@ + tail@),
{
    let ghost zeros = Seq::new(mid_zeros as nat, |i: int| 0u16);
    let mut full: Vec<u16> = Vec::new();
    let mut i: usize = 0;
    while i < lv.len()
        invariant
            0 <= i <= lv@.len(),
            full@ == lv@.subrange(0, i as int),
        decreases lv@.len() - i,
    {
        full.push(lv[i]);
        proof {
            assert(full@ =~= lv@.subrange(0, i as int + 1));
        }
        i += 1;
    }
    proof {
        assert(lv@.subrange(0, lv@.len() as int) =~= lv@);
    }
    let mut z: usize = 0;
    while z < mid_zeros
        invariant
            0 <= z <= mid_zeros,
            full@ == lv@ + zeros.subrange(0, z as int),
            zeros == Seq::new(mid_zeros as nat, |i: int| 0u16),
        decreases mid_zeros - z,
    {
        full.push(0);
        proof {
            assert(full@ =~= lv@ + zeros.subrange(0, z as int + 1));
        }
        z += 1;
    }
    proof {
        assert(zeros.subrange(0, mid_zeros as int) =~= zeros);
    }
    let mut j: usize = 0;
    while j < pv.len()
        invariant
            0 <= j <= pv@.len(),
            full@ == lv@ + zeros + pv@.subrange(0, j as int),
            zeros == Seq::new(mid_zeros as nat, |i: int| 0u16),
        decreases pv@.len() - j,
    {
        full.push(pv[j]);
        proof {
            assert(full@ =~= lv@ + zeros + pv@.subrange(0, j as int + 1));
        }
        j += 1;
    }
    proof {
        assert(pv@.subrange(0, pv@.len() as int) =~= pv@);
    }
    let mut q: usize = 0;
    while q < tail.len()
        invariant
            0 <= q <= tail@.len(),
            full@ == lv@ + zeros + pv@ + tail@.subrange(0, q as int),
            zeros == Seq::new(mid_zeros as nat, |i: int| 0u16),
        decreases tail@.len() - q,
    {
        full.push(tail[q]);
        proof {
            assert(full@ =~= lv@ + zeros + pv@ + tail@.subrange(0, q as int + 1));
        }
        q += 1;
    }
    proof {
        assert(tail@.subrange(0, tail@.len() as int) =~= tail@);
        lemma_v6_val_bound(full@);
        lemma_pow16_values();
        lemma_pow16_mono(full@.len() as int, 8);
    }
    fold_groups(&full)
}

/// The two groups an embedded dotted quad stands for.
fn quad_vec(v: u32) -> (r: Vec<u16>)
    ensures
        r@ == quad_groups(v),
{
    let mut r: Vec<u16> = Vec::new();
    r.push((v / 0x1_0000) as u16);
    r.push((v % 0x1_0000) as u16);
    proof {
        assert(r@ =~= quad_groups(v));
    }
    r
}

/// Parses `[start, end)` of `cs` as a v6 literal.
#[verifier::rlimit(100)]
pub(crate) fn parse_ipv6(cs: &Vec<char>, start: usize, end: usize) -> (r: Option<u128>)
    requires
        start <= end <= cs@.len(),
    ensures
        r == spec_parse_ipv6(cs@.subrange(start as int, end as int)),
{
    let ghost sub = cs@.subrange(start as int, end as int);
    let mut pat: Vec<char> = Vec::new();
    pat.push(':');
    pat.push(':');
    proof {
        assert(pat@ =~= seq![':', ':']);
    }
    match find_pat(cs, start, end, &pat) {
        Some(k) => {
            let ghost l = sub.subrange(0, k - start);
            let ghost rr = sub.skip(k - start + 2);
            proof {
                assert(l =~= cs@.subrange(start as int, k as int));
                assert(rr =~= cs@.subrange(k as int + 2, end as int));
            }
            if find_pat(cs, k + 2, end, &pat).is_some() {
                return None;
            }
            let left: Option<Vec<u16>> = if start == k {
                Some(Vec::new())
            } else {
                collect_groups(cs, start, k)
            };
            let ghost lparts = if l.len() == 0 {
                Seq::<Seq<char>>::empty()
            } else {
                split_sep(l, ':')
            };
            proof {
                if l.len() == 0 {
                    assert(group_vals(lparts) =~= Seq::<u16>::empty());
                }
            }
            let lv = match left {
                Some(lv) => lv,
                None => {
                    return None;
                },
            };
            proof {
                assert(lv@ =~= group_vals(lparts));
            }
            if k + 2 == end {
                // nothing to the right of the `::`
                if lv.len() <= 7 {
                    let empty: Vec<u16> = Vec::new();
                    let val = assemble_v6(&lv, 8 - lv.len(), &empty, &empty);
                    proof {
                        assert(lv@ + Seq::new((8 - lv@.len()) as nat, |i: int| 0u16)
                            + Seq::<u16>::empty() + Seq::<u16>::empty() =~= group_vals(lparts)
                            + Seq::new((8 - lparts.len()) as nat, |i: int| 0u16));
                    }
                    return Some(val);
                }
                return None;
            }
            let ghost rparts = split_sep(rr, ':');
            let right: Option<Vec<u16>> = collect_groups(cs, k + 2, end);
            if let Some(rv) = &right {
                proof {
                    assert(rv@ =~= group_vals(rparts));
                }
                if lv.len() <= 7 && rv.len() <= 7 - lv.len() {
                    let m = 8 - lv.len() - rv.len();
                    let empty: Vec<u16> = Vec::new();
                    let val = assemble_v6(&lv, m, rv, &empty);
                    proof {
                        assert(lv@ + Seq::new(m as nat, |i: int| 0u16) + rv@ + Seq::<u16>::empty()
                            =~= group_vals(lparts) + Seq::new(
                            (8 - lparts.len() - rparts.len()) as nat,
                            |i: int| 0u16,
                        ) + group_vals(rparts));
                    }
                    return Some(val);
                }
            }
            // the final piece may be an embedded dotted quad
            let (pfx_end, quad_start) = match find_last_sep(cs, k + 2, end, ':') {
                Some(c) => (c, c + 1),
                None => (k + 2, k + 2),
            };
            let ghost pparts = if quad_start == k + 2 {
                Seq::<Seq<char>>::empty()
            } else {
                split_sep(cs@.subrange(k as int + 2, pfx_end as int), ':')
            };
            proof {
                if quad_start == k + 2 {
                    // the right side is one piece: the quad itself
                    crate::text::lemma_find_char_none(rr, ':');
                    assert(rparts == seq![rr]);
                    assert(rparts.drop_last() =~= Seq::<Seq<char>>::empty());
                    assert(rparts.last() == rr);
                    assert(rr =~= cs@.subrange(quad_start as int, end as int));
                    assert(group_vals(pparts) =~= Seq::<u16>::empty());
                } else {
                    let rel = pfx_end - (k as int + 2);
                    assert(rr[rel] == cs@[pfx_end as int]);
                    assert forall|j: int| rel < j < rr.len() implies rr[j] != ':' by {
                        assert(rr[j] == cs@[k + 2 + j]);
                    }
                    lemma_split_sep_last(rr, ':', rel);
                    assert(rr.subrange(0, rel) =~= cs@.subrange(k as int + 2, pfx_end as int));
                    assert(rr.skip(rel + 1) =~= cs@.subrange(quad_start as int, end as int));
                    assert(rparts == split_sep(rr.subrange(0, rel), ':') + seq![rr.skip(rel + 1)]);
                    assert(rparts.drop_last() =~= pparts);
                    assert(rparts.last() == rr.skip(rel + 1));
                }
            }
            let prefix: Option<Vec<u16>> = if quad_start == k + 2 {
                Some(Vec::new())
            } else {
                collect_groups(cs, k + 2, pfx_end)
            };
            let quad = parse_ipv4(cs, quad_start, end);
            match (prefix, quad) {
                (Some(pv), Some(qv)) => {
                    proof {
                        assert(pv@ =~= group_vals(pparts));
                    }
                    if lv.len() <= 6 && pv.len() <= 6 - lv.len() {
                        let m = 8 - lv.len() - pv.len() - 2;
                        let tail = quad_vec(qv);
                        let val = assemble_v6(&lv, m, &pv, &tail);
                        proof {
                            assert(lv@ + Seq::new(m as nat, |i: int| 0u16) + pv@ + tail@
                                =~= group_vals(lparts) + Seq::new(
                                (8 - lparts.len() - (rparts.len() - 1) - 2) as nat,
                                |i: int| 0u16,
                            ) + group_vals(rparts.drop_last()) + quad_groups(qv));
                        }
                        Some(val)
                    } else {
                        None
                    }
                },
                _ => None,
            }
        },
        None => {
            let ghost parts = split_sep(sub, ':');
            match collect_groups(cs, start, end) {
                Some(v) => {
                    if v.len() == 8 {
                        proof {
                            lemma_v6_val_bound(v@);
                            lemma_pow16_values();
                        }
                        return Some(fold_groups(&v));
                    }
                },
                None => (),
            }
            // the final piece may be an embedded dotted quad
            let c = match find_last_sep(cs, start, end, ':') {
                Some(c) => c,
                None => {
                    proof {
                        crate::text::lemma_find_char_none(sub, ':');
                        assert(parts == seq![sub]);
                    }
                    return None;
                },
            };
            let ghost rel = c - start as int;
            let ghost pparts = split_sep(cs@.subrange(start as int, c as int), ':');
            proof {
                assert(sub[rel] == cs@[c as int]);
                assert forall|j: int| rel < j < sub.len() implies sub[j] != ':' by {
                    assert(sub[j] == cs@[start + j]);
                }
                lemma_split_sep_last(sub, ':', rel);
                assert(sub.subrange(0, rel) =~= cs@.subrange(start as int, c as int));
                assert(sub.skip(rel + 1) =~= cs@.subrange(c as int + 1, end as int));
                assert(parts == split_sep(sub.subrange(0, rel), ':') + seq![sub.skip(rel + 1)]);
                assert(parts.drop_last() =~= pparts);
                assert(parts.last() == sub.skip(rel + 1));
            }
            let prefix = collect_groups(cs, start, c);
            let quad = parse_ipv4(cs, c + 1, end);
            match (prefix, quad) {
                (Some(pv), Some(qv)) => {
                    proof {
                        assert(pv@ =~= group_vals(pparts));
                    }
                    if pv.len() == 6 {
                        let empty: Vec<u16> = Vec::new();
                        let tail = quad_vec(qv);
                        let val = assemble_v6(&pv, 0, &empty, &tail);
                        proof {
                            assert(pv@ + Seq::new(0 as nat, |i: int| 0u16) + Seq::<u16>::empty()
                                + tail@ =~= group_vals(parts.drop_last()) + quad_groups(qv));
                        }
                        Some(val)
                    } else {
                        None
                    }
                },
                _ => None,
            }
        },
    }
}

impl IpAddress {
    /// The v6 address with the given groups, most significant first.
    pub fn v6_from_groups(
        g0: u16,
        g1: u16,
        g2: u16,
        g3: u16,
        g4: u16,
        g5: u16,
        g6: u16,
        g7: u16,
    ) -> (r: Self)
        ensures
            r == IpAddress::V6(v6_val(seq![g0, g1, g2, g3, g4, g5, g6, g7]) as u128),
    {
        let mut v: Vec<u16> = Vec::new();
        v.push(g0);
        v.push(g1);
        v.push(g2);
        v.push(g3);
        v.push(g4);
        v.push(g5);
        v.push(g6);
        v.push(g7);
        proof {
            assert(v@ =~= seq![g0, g1, g2, g3, g4, g5, g6, g7]);
            lemma_v6_val_bound(v@);
            lemma_pow16_values();
        }
        IpAddress::V6(fold_groups(&v))
    }
}

} // verus!
