//! Character-level text helpers shared by the parsers and formatters:
//! decimal and hexadecimal digit handling, trimming, and string building.

use vstd::prelude::*;

verus! {

/// Whitespace recognised when surrounding input is trimmed.
pub open spec fn is_ws(c: char) -> bool {
    c == ' ' || c == '\t' || c == '\n' || c == '\r'
}

pub open spec fn is_digit(c: char) -> bool {
    '0' <= c && c <= '9'
}

/// Numeric value of a decimal digit character.
pub open spec fn digit_val(c: char) -> int {
    c as int - '0' as int
}

pub open spec fn all_digits(s: Seq<char>) -> bool {
    forall|i: int| 0 <= i < s.len() ==> is_digit(#[trigger] s[i])
}

/// Value of a digit string read in base ten.
pub open spec fn digits_val(s: Seq<char>) -> int
    decreases s.len(),
{
    if s.len() == 0 {
        0
    } else {
        digits_val(s.drop_last()) * 10 + digit_val(s.last())
    }
}

/// What `"123"` and the like denote as a port-sized number: every character
/// a decimal digit, at least one of them, and the value within `u16`.
pub open spec fn spec_parse_u16(s: Seq<char>) -> Option<u16> {
    if s.len() == 0 || !all_digits(s) {
        None
    } else if digits_val(s) > u16::MAX {
        None
    } else {
        Some(digits_val(s) as u16)
    }
}

pub proof fn lemma_digits_val_nonneg(s: Seq<char>)
    requires
        all_digits(s),
    ensures
        digits_val(s) >= 0,
    decreases s.len(),
{
    if s.len() > 0 {
        assert(all_digits(s.drop_last())) by {
            assert(forall|i: int|
                0 <= i < s.len() - 1 ==> is_digit(#[trigger] s.drop_last()[i]) == is_digit(s[i]));
        }
        lemma_digits_val_nonneg(s.drop_last());
    }
}

/// Once a digit prefix exceeds `u16::MAX`, any longer digit string does too.
pub proof fn lemma_digits_val_grows(s: Seq<char>)
    requires
        all_digits(s),
        s.len() > 0,
    ensures
        digits_val(s) >= digits_val(s.drop_last()),
    decreases s.len(),
{
    assert(all_digits(s.drop_last())) by {
        assert(forall|i: int|
            0 <= i < s.len() - 1 ==> is_digit(#[trigger] s.drop_last()[i]) == is_digit(s[i]));
    }
    lemma_digits_val_nonneg(s.drop_last());
}

/// Parses a whole character slice as a decimal `u16`.
pub fn parse_u16(s: &[char]) -> (r: Option<u16>)
    ensures
        r == spec_parse_u16(s@),
{
    let n = s.len();
    if n == 0 {
        return None;
    }
    let mut acc: u32 = 0;
    let mut over: bool = false;
    let mut i: usize = 0;
    while i < n
        invariant
            0 < n == s@.len(),
            0 <= i <= n,
            all_digits(s@.subrange(0, i as int)),
            !over ==> acc == digits_val(s@.subrange(0, i as int)) && acc <= u16::MAX,
            over ==> digits_val(s@.subrange(0, i as int)) > u16::MAX,
        decreases n - i,
    {
        let c = s[i];
        if !('0' <= c && c <= '9') {
            assert(!is_digit(s@[i as int]));
            return None;
        }
        let ghost pre = s@.subrange(0, i as int);
        let ghost cur = s@.subrange(0, i + 1 as int);
        proof {
            assert(cur.drop_last() =~= pre);
            assert(cur.last() == s@[i as int]);
        }
        let d: u32 = (c as u32) - ('0' as u32);
        assert(d == digit_val(s@[i as int]));
        if over {
            proof {
                lemma_digits_val_grows(cur);
                lemma_digits_val_nonneg(cur);
            }
        } else {
            let next: u32 = acc * 10 + d;
            if next > u16::MAX as u32 {
                over = true;
            } else {
                acc = next;
            }
        }
        i += 1;
    }
    assert(s@.subrange(0, n as int) =~= s@);
    if over {
        None
    } else {
        Some(acc as u16)
    }
}

/// Decimal rendering of a non-negative number, most significant digit first.
pub open spec fn spec_dec(n: int) -> Seq<char>
    decreases n,
{
    if n < 10 {
        seq![digit_char(n)]
    } else {
        spec_dec(n / 10).push(digit_char(n % 10))
    }
}

/// The digit character with value `d` (meaningful for `0 <= d <= 9`).
pub open spec fn digit_char(d: int) -> char {
    (('0' as int + d) as u32) as char
}

/// Renders `n` in decimal onto the end of `out`.
#[verifier::rlimit(50)]
pub fn push_dec_u64(out: &mut String, n: u64)
    ensures
        final (out)@ == old(out)@ + spec_dec(n as int),
{
    // Collect the digits least-significant first, then emit them reversed.
    let mut digits: Vec<char> = Vec::new();
    let mut m: u64 = n;
    loop
        invariant_except_break
            spec_dec(n as int) == spec_dec(m as int) + digits@.reverse(),
        ensures
            spec_dec(n as int) == digits@.reverse(),
        decreases m,
    {
        let ghost before = digits@;
        let d: u64 = m % 10;
        let c: char = char_of_digit(d as u8);
        digits.push(c);
        proof {
            assert(digits@.reverse() =~= seq![c] + before.reverse());
            if m >= 10 {
                assert(spec_dec(m as int) == spec_dec(m as int / 10).push(c));
                assert(spec_dec(m as int / 10).push(c) + before.reverse() =~= spec_dec(
                    m as int / 10,
                ) + (seq![c] + before.reverse()));
            } else {
                assert(spec_dec(m as int) =~= seq![c]);
                assert(seq![c] + before.reverse() =~= digits@.reverse());
            }
        }
        if m < 10 {
            break ;
        }
        m = m / 10;
    }
    let k = digits.len();
    let mut j: usize = 0;
    while j < k
        invariant
            k == digits@.len(),
            0 <= j <= k,
            out@ == old(out)@ + digits@.skip(k - j as int).reverse(),
        decreases k - j,
    {
        let c = digits[k - 1 - j];
        push_char(out, c);
        proof {
            let tail0 = digits@.skip(k - j as int);
            let tail1 = digits@.skip(k - j - 1 as int);
            assert(tail1 =~= seq![digits@[k - 1 - j as int]] + tail0);
            assert(tail1.reverse() =~= tail0.reverse().push(digits@[k - 1 - j as int]));
        }
        j += 1;
    }
    proof {
        assert(digits@.skip(0) =~= digits@);
    }
}

/// Executable digit character of a value below ten.
pub fn char_of_digit(d: u8) -> (c: char)
    requires
        d < 10,
    ensures
        c == digit_char(d as int),
{
    (('0' as u32 + d as u32) as u8) as char
}

/// Relies on std's `String::push`: appends the given character to the end of
/// the string.
#[verifier::external_body]
pub fn push_char(s: &mut String, c: char)
    ensures
        final (s)@ == old(s)@.push(c),
{
    s.push(c);
}

/// Copies the characters of a string slice into a vector.
pub fn chars_of(s: &str) -> (v: Vec<char>)
    ensures
        v@ == s@,
{
    let n = s.unicode_len();
    let mut v: Vec<char> = Vec::new();
    let mut i: usize = 0;
    while i < n
        invariant
            n == s@.len(),
            0 <= i <= n,
            v@ == s@.subrange(0, i as int),
        decreases n - i,
    {
        let c = s.get_char(i);
        v.push(c);
        proof {
            assert(v@ =~= s@.subrange(0, i + 1 as int));
        }
        i += 1;
    }
    proof {
        assert(s@.subrange(0, n as int) =~= s@);
    }
    v
}

// ---------------------------------------------------------------------------
// Scanning over character sequences: trimming, searching, splitting.
// ---------------------------------------------------------------------------
pub open spec fn trim_start(s: Seq<char>) -> Seq<char>
    decreases s.len(),
{
    if s.len() > 0 && is_ws(s[0]) {
        trim_start(s.drop_first())
    } else {
        s
    }
}

pub open spec fn trim_end(s: Seq<char>) -> Seq<char>
    decreases s.len(),
{
    if s.len() > 0 && is_ws(s.last()) {
        trim_end(s.drop_last())
    } else {
        s
    }
}

pub open spec fn spec_trim(s: Seq<char>) -> Seq<char> {
    trim_end(trim_start(s))
}

/// Index of the first occurrence of `sep`.
pub open spec fn find_char(s: Seq<char>, sep: char) -> Option<int>
    decreases s.len(),
{
    if s.len() == 0 {
        None
    } else if s[0] == sep {
        Some(0)
    } else {
        match find_char(s.drop_first(), sep) {
            Some(i) => Some(i + 1),
            None => None,
        }
    }
}

/// Index of the first occurrence of the pattern `pat` as a subsequence.
pub open spec fn find_sub(s: Seq<char>, pat: Seq<char>) -> Option<int>
    decreases s.len(),
{
    if pat.len() == 0 {
        Some(0)
    } else if s.len() < pat.len() {
        None
    } else if s.subrange(0, pat.len() as int) == pat {
        Some(0)
    } else {
        match find_sub(s.drop_first(), pat) {
            Some(i) => Some(i + 1),
            None => None,
        }
    }
}

/// Where the first occurrence of `sep` sits, and what is on either side.
pub proof fn lemma_find_char_bounds(s: Seq<char>, sep: char)
    ensures
        find_char(s, sep) matches Some(i) ==> 0 <= i < s.len() && s[i] == sep && (forall|j: int|
            0 <= j < i ==> s[j] != sep),
        find_char(s, sep) is None ==> forall|j: int| 0 <= j < s.len() ==> s[j] != sep,
    decreases s.len(),
{
    if s.len() > 0 && s[0] != sep {
        let rest = s.drop_first();
        lemma_find_char_bounds(rest, sep);
        match find_char(rest, sep) {
            Some(i) => {
                assert(find_char(s, sep) == Some(i + 1));
                assert(s[i + 1] == rest[i]);
                assert forall|j: int| 0 <= j < i + 1 implies s[j] != sep by {
                    if j >= 1 {
                        assert(s[j] == rest[j - 1]);
                    }
                }
            },
            None => {
                assert(find_char(s, sep) is None);
                assert forall|j: int| 0 <= j < s.len() implies s[j] != sep by {
                    if j >= 1 {
                        assert(s[j] == rest[j - 1]);
                    }
                }
            },
        }
    }
}

/// The pieces of `s` between occurrences of `sep`; always at least one.
pub open spec fn split_sep(s: Seq<char>, sep: char) -> Seq<Seq<char>>
    decreases s.len(),
    via split_sep_decreases
{
    match find_char(s, sep) {
        None => seq![s],
        Some(i) => seq![s.subrange(0, i)] + split_sep(s.skip(i + 1), sep),
    }
}

#[via_fn]
proof fn split_sep_decreases(s: Seq<char>, sep: char) {
    lemma_find_char_bounds(s, sep);
}

/// Splitting always yields at least one piece.
pub proof fn lemma_split_sep_len(s: Seq<char>, sep: char)
    ensures
        split_sep(s, sep).len() >= 1,
    decreases s.len(),
{
    match find_char(s, sep) {
        None => (),
        Some(i) => {
            lemma_find_char_bounds(s, sep);
            lemma_split_sep_len(s.skip(i + 1), sep);
        },
    }
}

pub(crate) fn ws(c: char) -> (r: bool)
    ensures
        r == is_ws(c),
{
    c == ' ' || c == '\t' || c == '\n' || c == '\r'
}

pub(crate) proof fn lemma_trim_start_at(s: Seq<char>, i: int)
    requires
        0 <= i <= s.len(),
        forall|j: int| 0 <= j < i ==> is_ws(s[j]),
        i < s.len() ==> !is_ws(s[i]),
    ensures
        trim_start(s) == s.skip(i),
    decreases i,
{
    if i == 0 {
        assert(s.skip(0) =~= s);
    } else {
        let rest = s.drop_first();
        assert forall|j: int| 0 <= j < i - 1 implies is_ws(rest[j]) by {
            assert(rest[j] == s[j + 1]);
        }
        if i - 1 < rest.len() {
            assert(rest[i - 1] == s[i]);
        }
        lemma_trim_start_at(rest, i - 1);
        assert(rest.skip(i - 1) =~= s.skip(i));
    }
}

pub(crate) proof fn lemma_trim_end_at(s: Seq<char>, i: int)
    requires
        0 <= i <= s.len(),
        forall|j: int| i <= j < s.len() ==> is_ws(s[j]),
        i > 0 ==> !is_ws(s[i - 1]),
    ensures
        trim_end(s) == s.take(i),
    decreases s.len() - i,
{
    if i == s.len() {
        assert(s.take(i) =~= s);
    } else {
        assert(is_ws(s.last()));
        let first = s.drop_last();
        assert forall|j: int| i <= j < first.len() implies is_ws(first[j]) by {
            assert(first[j] == s[j]);
        }
        if i > 0 {
            assert(first[i - 1] == s[i - 1]);
        }
        lemma_trim_end_at(first, i);
        assert(first.take(i) =~= s.take(i));
    }
}

/// Trims the half-open range `[start, end)` of `cs`, returning the trimmed
/// sub-range's bounds.
pub(crate) fn trim_indices(cs: &Vec<char>, start: usize, end: usize) -> (r: (usize, usize))
    requires
        start <= end <= cs@.len(),
    ensures
        start <= r.0 <= r.1 <= end,
        cs@.subrange(r.0 as int, r.1 as int) == spec_trim(
            cs@.subrange(start as int, end as int),
        ),
{
    let ghost sub = cs@.subrange(start as int, end as int);
    let mut lo = start;
    while lo < end && ws(cs[lo])
        invariant
            start <= lo <= end <= cs@.len(),
            forall|j: int| start <= j < lo ==> is_ws(cs@[j]),
        decreases end - lo,
    {
        lo += 1;
    }
    proof {
        assert forall|j: int| 0 <= j < lo - start implies is_ws(sub[j]) by {
            assert(sub[j] == cs@[start + j]);
        }
        if lo < end {
            assert(sub[lo - start] == cs@[lo as int]);
        }
        lemma_trim_start_at(sub, lo - start);
        assert(sub.skip(lo - start) =~= cs@.subrange(lo as int, end as int));
    }
    let ghost mid = cs@.subrange(lo as int, end as int);
    let mut hi = end;
    while hi > lo && ws(cs[hi - 1])
        invariant
            start <= lo <= hi <= end <= cs@.len(),
            forall|j: int| hi <= j < end ==> is_ws(cs@[j]),
        decreases hi,
    {
        hi -= 1;
    }
    proof {
        assert forall|j: int| hi - lo <= j < mid.len() implies is_ws(mid[j]) by {
            assert(mid[j] == cs@[lo + j]);
        }
        if hi > lo {
            assert(mid[hi - lo - 1] == cs@[hi - 1]);
        }
        lemma_trim_end_at(mid, hi - lo);
        assert(mid.take(hi - lo) =~= cs@.subrange(lo as int, hi as int));
    }
    (lo, hi)
}

pub(crate) proof fn lemma_find_char_at(s: Seq<char>, sep: char, i: int)
    requires
        0 <= i < s.len(),
        s[i] == sep,
        forall|j: int| 0 <= j < i ==> s[j] != sep,
    ensures
        find_char(s, sep) == Some(i),
    decreases i,
{
    if i > 0 {
        let rest = s.drop_first();
        assert(rest[i - 1] == s[i]);
        assert forall|j: int| 0 <= j < i - 1 implies rest[j] != sep by {
            assert(rest[j] == s[j + 1]);
        }
        lemma_find_char_at(rest, sep, i - 1);
    }
}

pub(crate) proof fn lemma_find_char_none(s: Seq<char>, sep: char)
    requires
        forall|j: int| 0 <= j < s.len() ==> s[j] != sep,
    ensures
        find_char(s, sep) is None,
    decreases s.len(),
{
    if s.len() > 0 {
        let rest = s.drop_first();
        assert forall|j: int| 0 <= j < rest.len() implies rest[j] != sep by {
            assert(rest[j] == s[j + 1]);
        }
        lemma_find_char_none(rest, sep);
    }
}

/// First occurrence of `sep` in `[start, end)`, as an absolute index.
pub(crate) fn find_sep(cs: &Vec<char>, start: usize, end: usize, sep: char) -> (r: Option<usize>)
    requires
        start <= end <= cs@.len(),
    ensures
        match r {
            Some(k) => start <= k < end && find_char(
                cs@.subrange(start as int, end as int),
                sep,
            ) == Some(k - start),
            None => find_char(cs@.subrange(start as int, end as int), sep) is None,
        },
{
    let ghost sub = cs@.subrange(start as int, end as int);
    let mut k = start;
    while k < end
        invariant
            start <= k <= end <= cs@.len(),
            sub == cs@.subrange(start as int, end as int),
            forall|j: int| start <= j < k ==> cs@[j] != sep,
        decreases end - k,
    {
        if cs[k] == sep {
            proof {
                assert(sub[k - start] == cs@[k as int]);
                assert forall|j: int| 0 <= j < k - start implies sub[j] != sep by {
                    assert(sub[j] == cs@[start + j]);
                }
                lemma_find_char_at(sub, sep, k - start);
            }
            return Some(k);
        }
        k += 1;
    }
    proof {
        assert forall|j: int| 0 <= j < sub.len() implies sub[j] != sep by {
            assert(sub[j] == cs@[start + j]);
        }
        lemma_find_char_none(sub, sep);
    }
    None
}

pub(crate) proof fn lemma_find_sub_at(s: Seq<char>, pat: Seq<char>, i: int)
    requires
        pat.len() > 0,
        0 <= i,
        i + pat.len() <= s.len(),
        forall|j: int| 0 <= j < i ==> #[trigger] s.subrange(j, j + pat.len() as int) != pat,
        s.subrange(i, i + pat.len() as int) == pat,
    ensures
        find_sub(s, pat) == Some(i),
    decreases i,
{
    if i == 0 {
    } else {
        let rest = s.drop_first();
        assert forall|j: int| 0 <= j < i - 1 implies #[trigger] rest.subrange(j, j + pat.len() as int) != pat by {
            assert(rest.subrange(j, j + pat.len() as int) =~= s.subrange(
                j + 1,
                j + 1 + pat.len() as int,
            ));
        }
        assert(rest.subrange(i - 1, i - 1 + pat.len() as int) =~= s.subrange(
            i,
            i + pat.len() as int,
        ));
        lemma_find_sub_at(rest, pat, i - 1);
        assert(s.subrange(0, 0 + pat.len() as int) != pat);
        assert(s.subrange(0, pat.len() as int) != pat);
    }
}

pub(crate) proof fn lemma_find_sub_none(s: Seq<char>, pat: Seq<char>)
    requires
        pat.len() > 0,
        forall|j: int| 0 <= j && j + pat.len() <= s.len() ==> #[trigger] s.subrange(j, j + pat.len() as int) != pat,
    ensures
        find_sub(s, pat) is None,
    decreases s.len(),
{
    if s.len() >= pat.len() {
        let rest = s.drop_first();
        assert forall|j: int| 0 <= j && j + pat.len() <= rest.len() implies #[trigger] rest.subrange(j, j + pat.len() as int) != pat by {
            assert(rest.subrange(j, j + pat.len() as int) =~= s.subrange(
                j + 1,
                j + 1 + pat.len() as int,
            ));
        }
        lemma_find_sub_none(rest, pat);
        assert(s.subrange(0, 0 + pat.len() as int) != pat);
        assert(s.subrange(0, pat.len() as int) != pat);
    }
}

/// First occurrence of `pat` inside `[start, end)` of `cs`, absolute.
pub(crate) fn find_pat(cs: &Vec<char>, start: usize, end: usize, pat: &Vec<char>) -> (r: Option<usize>)
    requires
        start <= end <= cs@.len(),
        pat@.len() > 0,
    ensures
        match r {
            Some(k) => start <= k && k + pat@.len() <= end && find_sub(
                cs@.subrange(start as int, end as int),
                pat@,
            ) == Some(k - start),
            None => find_sub(cs@.subrange(start as int, end as int), pat@) is None,
        },
{
    let ghost sub = cs@.subrange(start as int, end as int);
    let plen = pat.len();
    let mut k = start;
    while end - k >= plen
        invariant
            start <= k <= end <= cs@.len(),
            plen == pat@.len() > 0,
            sub == cs@.subrange(start as int, end as int),
            forall|j: int|
                0 <= j < k - start ==> #[trigger] sub.subrange(j, j + pat@.len() as int) != pat@,
        decreases end - k,
    {
        let mut m: usize = 0;
        let mut hit = true;
        while m < plen
            invariant
                start <= k,
                k + plen <= end <= cs@.len(),
                plen == pat@.len(),
                0 <= m <= plen,
                sub == cs@.subrange(start as int, end as int),
                hit <==> (forall|j: int| 0 <= j < m ==> cs@[k + j] == pat@[j]),
            decreases plen - m,
        {
            if cs[k + m] != pat[m] {
                hit = false;
                m = plen;
            } else {
                m += 1;
            }
        }
        if hit {
            proof {
                let rel = k - start;
                assert(sub.subrange(rel, rel + pat@.len() as int) =~= pat@) by {
                    assert(forall|j: int|
                        0 <= j < pat@.len() ==> #[trigger] sub.subrange(
                            rel,
                            rel + pat@.len() as int,
                        )[j] == cs@[k + j]);
                }
                lemma_find_sub_at(sub, pat@, rel);
            }
            return Some(k);
        }
        proof {
            let rel = k - start;
            let pseq = sub.subrange(rel, rel + pat@.len() as int);
            if pseq == pat@ {
                assert forall|j: int| 0 <= j < plen implies cs@[k + j] == pat@[j] by {
                    assert(pseq[j] == sub[rel + j]);
                    assert(sub[rel + j] == cs@[k + j]);
                }
                assert(false);
            }
        }
        k += 1;
    }
    proof {
        assert forall|j: int| 0 <= j && j + pat@.len() <= sub.len() implies #[trigger] sub.subrange(
            j,
            j + pat@.len() as int,
        ) != pat@ by {}
        lemma_find_sub_none(sub, pat@);
    }
    None
}

/// A hexadecimal digit character, lower case.
pub open spec fn hex_char(d: int) -> char {
    if d < 10 {
        digit_char(d)
    } else {
        (('a' as int + (d - 10)) as u32) as char
    }
}

/// Hexadecimal rendering of a non-negative number, without leading zeros.
pub open spec fn spec_hex(n: int) -> Seq<char>
    decreases n,
{
    if n < 16 {
        seq![hex_char(n)]
    } else {
        spec_hex(n / 16).push(hex_char(n % 16))
    }
}

/// Executable hexadecimal digit of a value below sixteen.
pub fn char_of_hex(d: u8) -> (c: char)
    requires
        d < 16,
    ensures
        c == hex_char(d as int),
{
    if d < 10 {
        (('0' as u32 + d as u32) as u8) as char
    } else {
        (('a' as u32 + (d - 10) as u32) as u8) as char
    }
}

/// Renders `n` in hexadecimal onto the end of `out`.
#[verifier::rlimit(50)]
pub fn push_hex_u16(out: &mut String, n: u16)
    ensures
        final (out)@ == old(out)@ + spec_hex(n as int),
{
    let mut digits: Vec<char> = Vec::new();
    let mut m: u16 = n;
    loop
        invariant_except_break
            spec_hex(n as int) == spec_hex(m as int) + digits@.reverse(),
        ensures
            spec_hex(n as int) == digits@.reverse(),
        decreases m,
    {
        let ghost before = digits@;
        let d: u16 = m % 16;
        let c: char = char_of_hex(d as u8);
        digits.push(c);
        proof {
            assert(digits@.reverse() =~= seq![c] + before.reverse());
            if m >= 16 {
                assert(spec_hex(m as int) == spec_hex(m as int / 16).push(c));
                assert(spec_hex(m as int / 16).push(c) + before.reverse() =~= spec_hex(
                    m as int / 16,
                ) + (seq![c] + before.reverse()));
            } else {
                assert(spec_hex(m as int) =~= seq![c]);
                assert(seq![c] + before.reverse() =~= digits@.reverse());
            }
        }
        if m < 16 {
            break ;
        }
        m = m / 16;
    }
    let k = digits.len();
    let mut j: usize = 0;
    while j < k
        invariant
            k == digits@.len(),
            0 <= j <= k,
            out@ == old(out)@ + digits@.skip(k - j as int).reverse(),
        decreases k - j,
    {
        let c = digits[k - 1 - j];
        push_char(out, c);
        proof {
            let tail0 = digits@.skip(k - j as int);
            let tail1 = digits@.skip(k - j - 1 as int);
            assert(tail1 =~= seq![digits@[k - 1 - j as int]] + tail0);
            assert(tail1.reverse() =~= tail0.reverse().push(digits@[k - 1 - j as int]));
        }
        j += 1;
    }
    proof {
        assert(digits@.skip(0) =~= digits@);
    }
}

/// Character-for-character equality of two string slices.
pub fn str_eq(a: &str, b: &str) -> (r: bool)
    ensures
        r == (a@ == b@),
{
    let na = a.unicode_len();
    let nb = b.unicode_len();
    if na != nb {
        proof {
            assert(a@ != b@);
        }
        return false;
    }
    let mut i: usize = 0;
    while i < na
        invariant
            na == a@.len() == b@.len(),
            0 <= i <= na,
            forall|j: int| 0 <= j < i ==> a@[j] == b@[j],
        decreases na - i,
    {
        if a.get_char(i) != b.get_char(i) {
            proof {
                assert(a@[i as int] != b@[i as int]);
            }
            return false;
        }
        i += 1;
    }
    proof {
        assert(a@ =~= b@);
    }
    true
}

/// ASCII lower-casing of one character; other characters pass unchanged.
pub open spec fn ascii_lower(c: char) -> char {
    if 'A' <= c && c <= 'Z' {
        ((c as u32) + 32) as char
    } else {
        c
    }
}

/// The string lower-cased character by character.
pub open spec fn lower_seq(s: Seq<char>) -> Seq<char> {
    Seq::new(s.len(), |i: int| ascii_lower(s[i]))
}

fn lower_char(c: char) -> (r: char)
    ensures
        r == ascii_lower(c),
{
    if 'A' <= c && c <= 'Z' {
        (((c as u32) + 32) as u8) as char
    } else {
        c
    }
}

/// ASCII-case-insensitive equality of two string slices.
pub fn str_eq_ignore_ascii_case(a: &str, b: &str) -> (r: bool)
    ensures
        r == (lower_seq(a@) == lower_seq(b@)),
{
    let na = a.unicode_len();
    let nb = b.unicode_len();
    if na != nb {
        proof {
            assert(lower_seq(a@).len() != lower_seq(b@).len());
        }
        return false;
    }
    let mut i: usize = 0;
    while i < na
        invariant
            na == a@.len() == b@.len(),
            0 <= i <= na,
            forall|j: int| 0 <= j < i ==> ascii_lower(a@[j]) == ascii_lower(b@[j]),
        decreases na - i,
    {
        if lower_char(a.get_char(i)) != lower_char(b.get_char(i)) {
            proof {
                assert(lower_seq(a@)[i as int] != lower_seq(b@)[i as int]);
            }
            return false;
        }
        i += 1;
    }
    proof {
        assert(lower_seq(a@) =~= lower_seq(b@));
    }
    true
}

/// Splitting at the last separator: everything before it splits on its
/// own, and what follows is the one final piece.
pub proof fn lemma_split_sep_last(s: Seq<char>, sep: char, last: int)
    requires
        0 <= last < s.len(),
        s[last] == sep,
        forall|j: int| last < j < s.len() ==> s[j] != sep,
    ensures
        split_sep(s, sep) == split_sep(s.subrange(0, last), sep) + seq![s.skip(last + 1)],
    decreases s.len(),
{
    lemma_find_char_bounds(s, sep);
    match find_char(s, sep) {
        None => {
            assert(false);
        },
        Some(f) => {
            assert(f <= last);
            assert(split_sep(s, sep) == seq![s.subrange(0, f)] + split_sep(s.skip(f + 1), sep));
            if f == last {
                // the final piece holds no separator
                let tail = s.skip(f + 1);
                assert forall|j: int| 0 <= j < tail.len() implies tail[j] != sep by {
                    assert(tail[j] == s[f + 1 + j]);
                }
                lemma_find_char_none(tail, sep);
                assert(split_sep(tail, sep) == seq![tail]);
                let head = s.subrange(0, last);
                assert forall|j: int| 0 <= j < head.len() implies head[j] != sep by {
                    assert(head[j] == s[j]);
                    if !(j < f) {
                        assert(false);
                    }
                }
                lemma_find_char_none(head, sep);
                assert(split_sep(head, sep) == seq![head]);
                assert(split_sep(s, sep) =~= split_sep(head, sep) + seq![tail]);
            } else {
                let rest = s.skip(f + 1);
                assert(rest[last - f - 1] == s[last as int]);
                assert forall|j: int| last - f - 1 < j < rest.len() implies rest[j] != sep by {
                    assert(rest[j] == s[f + 1 + j]);
                }
                lemma_split_sep_last(rest, sep, last - f - 1);
                assert(rest.subrange(0, last - f - 1) =~= s.subrange(f + 1, last));
                assert(rest.skip(last - f) =~= s.skip(last + 1));
                // the head splits at the same first separator
                let head = s.subrange(0, last);
                assert(head[f] == sep);
                assert forall|j: int| 0 <= j < f implies head[j] != sep by {
                    assert(head[j] == s[j]);
                }
                lemma_find_char_at(head, sep, f);
                assert(split_sep(head, sep) == seq![head.subrange(0, f)] + split_sep(
                    head.skip(f + 1),
                    sep,
                ));
                assert(head.subrange(0, f) =~= s.subrange(0, f));
                assert(head.skip(f + 1) =~= s.subrange(f + 1, last));
                assert(split_sep(s, sep) =~= split_sep(head, sep) + seq![s.skip(last + 1)]);
            }
        },
    }
}

/// Last occurrence of `sep` in `[start, end)`, as an absolute index.
pub(crate) fn find_last_sep(cs: &Vec<char>, start: usize, end: usize, sep: char) -> (r: Option<
    usize,
>)
    requires
        start <= end <= cs@.len(),
    ensures
        match r {
            Some(k) => start <= k < end && cs@[k as int] == sep && (forall|j: int|
                k < j < end ==> cs@[j] != sep),
            None => forall|j: int| start <= j < end ==> cs@[j] != sep,
        },
{
    let mut k = end;
    while k > start
        invariant
            start <= k <= end <= cs@.len(),
            forall|j: int| k <= j < end ==> cs@[j] != sep,
        decreases k,
    {
        if cs[k - 1] == sep {
            return Some(k - 1);
        }
        k -= 1;
    }
    None
}

} // verus!
