//! Textual IP-address literals, as embedded in multiaddr strings.
//!
//! The admission layer reads peer addresses out of `/`-delimited multiaddr
//! text (`/ip4/203.0.113.7/tcp/9000/...`). This module gives the grammar of
//! IPv4 and IPv6 literals over the UTF-8 bytes of such a segment, and
//! parsers proved to accept exactly that grammar:
//!
//! - an IPv4 literal is four decimal octets (no leading zeros, each at most
//!   255) joined by `.`;
//! - an IPv6 literal is eight 16-bit hexadecimal groups joined by `:`, with
//!   at most one `::` standing for one or more zero groups, and optionally
//!   an embedded IPv4 literal in place of the last two groups.

use vstd::prelude::*;

use crate::ip::IpAddress;

verus! {

/// ASCII `'0'`.
pub const DIGIT_LO: u8 = 48;

/// ASCII `'9'`.
pub const DIGIT_HI: u8 = 57;

/// ASCII `'a'`.
pub const HEX_LC_LO: u8 = 97;

/// ASCII `'f'`.
pub const HEX_LC_HI: u8 = 102;

/// ASCII `'A'`.
pub const HEX_UC_LO: u8 = 65;

/// ASCII `'F'`.
pub const HEX_UC_HI: u8 = 70;

/// ASCII `'.'`.
pub const DOT: u8 = 46;

/// ASCII `':'`.
pub const COLON: u8 = 58;

/// ASCII `'/'`.
pub const SLASH: u8 = 47;

/// An ASCII decimal digit.
pub open spec fn is_digit(b: u8) -> bool {
    DIGIT_LO <= b <= DIGIT_HI
}

/// The value of a decimal digit.
pub open spec fn digit_val(b: u8) -> nat {
    (b - DIGIT_LO) as nat
}

/// An ASCII hexadecimal digit, either case.
pub open spec fn is_hex_digit(b: u8) -> bool {
    is_digit(b) || (HEX_LC_LO <= b <= HEX_LC_HI) || (HEX_UC_LO <= b <= HEX_UC_HI)
}

/// The value of a hexadecimal digit.
pub open spec fn hex_digit_val(b: u8) -> nat {
    if is_digit(b) {
        (b - DIGIT_LO) as nat
    } else if HEX_LC_LO <= b <= HEX_LC_HI {
        (b - HEX_LC_LO + 10) as nat
    } else {
        (b - HEX_UC_LO + 10) as nat
    }
}

/// Every byte is a decimal digit.
pub open spec fn all_digits(s: Seq<u8>) -> bool {
    forall|i: int| 0 <= i < s.len() ==> is_digit(#[trigger] s[i])
}

/// Every byte is a hexadecimal digit.
pub open spec fn all_hex(s: Seq<u8>) -> bool {
    forall|i: int| 0 <= i < s.len() ==> is_hex_digit(#[trigger] s[i])
}

/// The number denoted by a string of decimal digits, most significant
/// first.
pub open spec fn dec_val(s: Seq<u8>) -> nat
    decreases s.len(),
{
    if s.len() == 0 {
        0
    } else {
        dec_val(s.drop_last()) * 10 + digit_val(s.last())
    }
}

/// The number denoted by a string of hexadecimal digits, most
/// significant first.
pub open spec fn hex_val(s: Seq<u8>) -> nat
    decreases s.len(),
{
    if s.len() == 0 {
        0
    } else {
        hex_val(s.drop_last()) * 16 + hex_digit_val(s.last())
    }
}

/// A decimal octet as IPv4 text allows it: one to three digits, no
/// leading zero (except `0` itself), value at most 255.
pub open spec fn is_dec_octet(s: Seq<u8>) -> bool {
    &&& 1 <= s.len() <= 3
    &&& all_digits(s)
    &&& (s.len() > 1 ==> s[0] != DIGIT_LO)
    &&& dec_val(s) <= 255
}

/// One 16-bit hexadecimal group of an IPv6 literal: one to four hex
/// digits.
pub open spec fn is_h16(s: Seq<u8>) -> bool {
    1 <= s.len() <= 4 && all_hex(s)
}

/// `s` split at every occurrence of `sep`: always one more part than
/// separators, parts in order, separators dropped.
pub open spec fn split_on(s: Seq<u8>, sep: u8) -> Seq<Seq<u8>>
    decreases s.len(),
{
    if s.len() == 0 {
        seq![Seq::<u8>::empty()]
    } else if s[0] == sep {
        seq![Seq::<u8>::empty()] + split_on(s.skip(1), sep)
    } else {
        let rest = split_on(s.skip(1), sep);
        seq![seq![s[0]] + rest[0]] + rest.skip(1)
    }
}

/// Splitting yields at least one part.
pub proof fn lemma_split_len_pos(s: Seq<u8>, sep: u8)
    ensures
        split_on(s, sep).len() >= 1,
    decreases s.len(),
{
    if s.len() > 0 {
        lemma_split_len_pos(s.skip(1), sep);
    }
}

/// A string without the separator splits into itself alone.
pub proof fn lemma_split_no_sep(s: Seq<u8>, sep: u8)
    requires
        forall|i: int| 0 <= i < s.len() ==> s[i] != sep,
    ensures
        split_on(s, sep) == seq![s],
    decreases s.len(),
{
    if s.len() == 0 {
        assert(s =~= Seq::<u8>::empty());
    } else {
        lemma_split_no_sep(s.skip(1), sep);
        lemma_split_len_pos(s.skip(1), sep);
        assert(seq![s[0]] + s.skip(1) =~= s);
        assert(split_on(s, sep) =~= seq![s]);
    }
}

/// Splitting at the first separator: the part before it, then the split
/// of what follows it.
pub proof fn lemma_split_at_first(s: Seq<u8>, sep: u8, i: int)
    requires
        0 <= i < s.len(),
        s[i] == sep,
        forall|j: int| 0 <= j < i ==> s[j] != sep,
    ensures
        split_on(s, sep) == seq![s.take(i)] + split_on(s.skip(i + 1), sep),
    decreases i,
{
    if i == 0 {
        assert(s.take(0) =~= Seq::<u8>::empty());
        assert(split_on(s, sep) =~= seq![s.take(0)] + split_on(s.skip(1), sep));
    } else {
        let t = s.skip(1);
        lemma_split_at_first(t, sep, i - 1);
        lemma_split_len_pos(t.skip(i), sep);
        assert(t.take(i - 1) =~= s.take(i).skip(1));
        assert(t.skip(i) =~= s.skip(i + 1));
        let rest = split_on(t, sep);
        assert(rest[0] == s.take(i).skip(1));
        assert(seq![s[0]] + rest[0] =~= s.take(i));
        assert(split_on(s, sep) =~= seq![s.take(i)] + split_on(s.skip(i + 1), sep));
    }
}

/// The byte subranges named by `ranges`, in order.
pub open spec fn parts_of(s: Seq<u8>, ranges: Seq<(usize, usize)>) -> Seq<Seq<u8>> {
    Seq::new(ranges.len(), |k: int| s.subrange(ranges[k].0 as int, ranges[k].1 as int))
}

/// Split `s[lo..hi]` at every `sep`, returning the index range of each
/// part.
pub fn split_ranges(s: &[u8], lo: usize, hi: usize, sep: u8) -> (r: Vec<(usize, usize)>)
    requires
        lo <= hi <= s@.len(),
    ensures
        parts_of(s@, r@) == split_on(s@.subrange(lo as int, hi as int), sep),
        forall|k: int| 0 <= k < r@.len() ==> lo <= (#[trigger] r@[k]).0 <= r@[k].1 <= hi,
        r@.len() >= 1,
{
    let mut out: Vec<(usize, usize)> = Vec::new();
    let mut start: usize = lo;
    let mut i: usize = lo;
    while i < hi
        invariant
            lo <= start <= i <= hi <= s@.len(),
            forall|j: int| start <= j < i ==> s@[j] != sep,
            forall|k: int| 0 <= k < out@.len() ==> lo <= (#[trigger] out@[k]).0 <= out@[k].1 <= hi,
            split_on(s@.subrange(lo as int, hi as int), sep) == parts_of(s@, out@) + split_on(
                s@.subrange(start as int, hi as int),
                sep,
            ),
        decreases hi - i,
    {
        if s[i] == sep {
            proof {
                let rem = s@.subrange(start as int, hi as int);
                assert(rem[i - start] == sep);
                assert forall|j: int| 0 <= j < i - start implies rem[j] != sep by {
                    assert(s@[start + j] != sep);
                }
                lemma_split_at_first(rem, sep, i - start);
                assert(rem.take(i - start) =~= s@.subrange(start as int, i as int));
                assert(rem.skip(i - start + 1) =~= s@.subrange(i + 1, hi as int));
            }
            let ghost out0 = out@;
            out.push((start, i));
            proof {
                assert(parts_of(s@, out@) =~= parts_of(s@, out0) + seq![
                    s@.subrange(start as int, i as int),
                ]);
                assert(parts_of(s@, out0) + seq![s@.subrange(start as int, i as int)] + split_on(
                    s@.subrange(i + 1, hi as int),
                    sep,
                ) =~= parts_of(s@, out0) + (seq![s@.subrange(start as int, i as int)] + split_on(
                    s@.subrange(i + 1, hi as int),
                    sep,
                )));
            }
            start = i + 1;
        }
        i = i + 1;
    }
    proof {
        let rem = s@.subrange(start as int, hi as int);
        assert forall|j: int| 0 <= j < rem.len() implies rem[j] != sep by {
            assert(s@[start + j] != sep);
        }
        lemma_split_no_sep(rem, sep);
    }
    let ghost out0 = out@;
    out.push((start, hi));
    proof {
        assert(parts_of(s@, out@) =~= parts_of(s@, out0) + seq![
            s@.subrange(start as int, hi as int),
        ]);
        assert(parts_of(s@, out0) + seq![s@.subrange(start as int, hi as int)] =~= parts_of(
            s@,
            out0,
        ) + split_on(s@.subrange(start as int, hi as int), sep));
    }
    out
}

/// Parse `s[lo..hi]` as a decimal octet.
pub fn parse_dec_octet(s: &[u8], lo: usize, hi: usize) -> (r: Option<u8>)
    requires
        lo <= hi <= s@.len(),
    ensures
        match r {
            Some(v) => is_dec_octet(s@.subrange(lo as int, hi as int)) && v as nat == dec_val(
                s@.subrange(lo as int, hi as int),
            ),
            None => !is_dec_octet(s@.subrange(lo as int, hi as int)),
        },
{
    let ghost t = s@.subrange(lo as int, hi as int);
    let len = hi - lo;
    if len < 1 || len > 3 {
        return None;
    }
    if len > 1 && s[lo] == DIGIT_LO {
        return None;
    }
    let mut v: u32 = 0;
    let mut i: usize = lo;
    while i < hi
        invariant
            lo <= i <= hi <= s@.len(),
            hi - lo <= 3,
            t == s@.subrange(lo as int, hi as int),
            all_digits(t.take(i - lo)),
            v as nat == dec_val(t.take(i - lo)),
            i - lo == 0 ==> v == 0,
            i - lo == 1 ==> v <= 9,
            i - lo == 2 ==> v <= 99,
            i - lo == 3 ==> v <= 999,
        decreases hi - i,
    {
        let b = s[i];
        if b < DIGIT_LO || b > DIGIT_HI {
            proof {
                assert(t[i - lo] == b);
                assert(!all_digits(t));
            }
            return None;
        }
        proof {
            assert(t.take(i - lo + 1).drop_last() =~= t.take(i - lo));
            assert(t.take(i - lo + 1).last() == b);
        }
        v = v * 10 + ((b - DIGIT_LO) as u32);
        i = i + 1;
    }
    proof {
        assert(t.take(hi - lo) =~= t);
    }
    if v > 255 {
        return None;
    }
    Some(v as u8)
}

/// Parse `s[lo..hi]` as one 16-bit hexadecimal group.
pub fn parse_h16(s: &[u8], lo: usize, hi: usize) -> (r: Option<u16>)
    requires
        lo <= hi <= s@.len(),
    ensures
        match r {
            Some(v) => is_h16(s@.subrange(lo as int, hi as int)) && v as nat == hex_val(
                s@.subrange(lo as int, hi as int),
            ),
            None => !is_h16(s@.subrange(lo as int, hi as int)),
        },
{
    let ghost t = s@.subrange(lo as int, hi as int);
    let len = hi - lo;
    if len < 1 || len > 4 {
        return None;
    }
    let mut v: u32 = 0;
    let mut i: usize = lo;
    while i < hi
        invariant
            lo <= i <= hi <= s@.len(),
            hi - lo <= 4,
            t == s@.subrange(lo as int, hi as int),
            all_hex(t.take(i - lo)),
            v as nat == hex_val(t.take(i - lo)),
            i - lo == 0 ==> v == 0,
            i - lo == 1 ==> v <= 15,
            i - lo == 2 ==> v <= 255,
            i - lo == 3 ==> v <= 4095,
            i - lo == 4 ==> v <= 65535,
        decreases hi - i,
    {
        let b = s[i];
        let d: u32 = if b >= DIGIT_LO && b <= DIGIT_HI {
            (b - DIGIT_LO) as u32
        } else if b >= HEX_LC_LO && b <= HEX_LC_HI {
            (b - HEX_LC_LO) as u32 + 10
        } else if b >= HEX_UC_LO && b <= HEX_UC_HI {
            (b - HEX_UC_LO) as u32 + 10
        } else {
            proof {
                assert(t[i - lo] == b);
                assert(!all_hex(t));
            }
            return None;
        };
        proof {
            assert(t.take(i - lo + 1).drop_last() =~= t.take(i - lo));
            assert(t.take(i - lo + 1).last() == b);
        }
        v = v * 16 + d;
        i = i + 1;
    }
    proof {
        assert(t.take(hi - lo) =~= t);
    }
    Some(v as u16)
}

/// An IPv4 literal: four decimal octets joined by `.`.
pub open spec fn is_ipv4_bytes(s: Seq<u8>) -> bool {
    let parts = split_on(s, DOT);
    &&& parts.len() == 4
    &&& forall|k: int| 0 <= k < 4 ==> is_dec_octet(#[trigger] parts[k])
}

/// The `k`-th octet value of an IPv4 literal.
pub open spec fn ipv4_octet(s: Seq<u8>, k: int) -> nat {
    dec_val(split_on(s, DOT)[k])
}

/// The address an IPv4 literal denotes.
pub open spec fn spec_ipv4_of(s: Seq<u8>) -> IpAddress {
    IpAddress::V4 {
        a: ipv4_octet(s, 0) as u8,
        b: ipv4_octet(s, 1) as u8,
        c: ipv4_octet(s, 2) as u8,
        d: ipv4_octet(s, 3) as u8,
    }
}

/// Parse `s[lo..hi]` as an IPv4 literal.
pub fn parse_ipv4(s: &[u8], lo: usize, hi: usize) -> (r: Option<IpAddress>)
    requires
        lo <= hi <= s@.len(),
    ensures
        ({
            let t = s@.subrange(lo as int, hi as int);
            match r {
                Some(ip) => is_ipv4_bytes(t) && ip == spec_ipv4_of(t),
                None => !is_ipv4_bytes(t),
            }
        }),
{
    let ghost t = s@.subrange(lo as int, hi as int);
    let ranges = split_ranges(s, lo, hi, DOT);
    proof {
        assert(forall|k: int|
            0 <= k < ranges@.len() ==> split_on(t, DOT)[k] == s@.subrange(
                (#[trigger] ranges@[k]).0 as int,
                ranges@[k].1 as int,
            ));
    }
    if ranges.len() != 4 {
        return None;
    }
    let r0 = ranges[0];
    let a = match parse_dec_octet(s, r0.0, r0.1) {
        Some(v) => v,
        None => {
            return None;
        },
    };
    let r1 = ranges[1];
    let b = match parse_dec_octet(s, r1.0, r1.1) {
        Some(v) => v,
        None => {
            return None;
        },
    };
    let r2 = ranges[2];
    let c = match parse_dec_octet(s, r2.0, r2.1) {
        Some(v) => v,
        None => {
            return None;
        },
    };
    let r3 = ranges[3];
    let d = match parse_dec_octet(s, r3.0, r3.1) {
        Some(v) => v,
        None => {
            return None;
        },
    };
    Some(IpAddress::V4 { a, b, c, d })
}

/// Bytes `i` and `i + 1` of `s` are both `:`.
pub open spec fn dc_at(s: Seq<u8>, i: int) -> bool {
    0 <= i && i + 1 < s.len() && s[i] == COLON && s[i + 1] == COLON
}

/// Index of the first `::` in `s`, if any.
pub open spec fn find_dc(s: Seq<u8>) -> Option<int>
    decreases s.len(),
{
    if s.len() < 2 {
        None
    } else if s[0] == COLON && s[1] == COLON {
        Some(0)
    } else {
        match find_dc(s.skip(1)) {
            None => None,
            Some(i) => Some(i + 1),
        }
    }
}

/// A string without `::` has none to find.
pub proof fn lemma_find_dc_none(s: Seq<u8>)
    requires
        forall|j: int| !dc_at(s, j),
    ensures
        find_dc(s) is None,
    decreases s.len(),
{
    if s.len() >= 2 {
        assert(!dc_at(s, 0));
        assert forall|j: int| !dc_at(s.skip(1), j) by {
            assert(!dc_at(s, j + 1));
        }
        lemma_find_dc_none(s.skip(1));
    }
}

/// The first position carrying `::` is what `find_dc` returns.
pub proof fn lemma_find_dc_at(s: Seq<u8>, i: int)
    requires
        dc_at(s, i),
        forall|j: int| 0 <= j < i ==> !dc_at(s, j),
    ensures
        find_dc(s) == Some(i),
    decreases i,
{
    if i > 0 {
        assert(!dc_at(s, 0));
        assert(dc_at(s.skip(1), i - 1));
        assert forall|j: int| 0 <= j < i - 1 implies !dc_at(s.skip(1), j) by {
            assert(!dc_at(s, j + 1));
        }
        lemma_find_dc_at(s.skip(1), i - 1);
    }
}

/// The `:`-separated groups of a (possibly empty) side of `::`: an empty
/// side has no groups at all.
pub open spec fn groups_of(s: Seq<u8>) -> Seq<Seq<u8>> {
    if s.len() == 0 {
        Seq::<Seq<u8>>::empty()
    } else {
        split_on(s, COLON)
    }
}

/// Every part is a 16-bit hexadecimal group.
pub open spec fn all_h16(parts: Seq<Seq<u8>>) -> bool {
    forall|k: int| 0 <= k < parts.len() ==> is_h16(#[trigger] parts[k])
}

/// An IPv6 literal. Without `::` it is eight `:`-separated groups, or six
/// groups and a trailing embedded IPv4 literal (worth two groups). With
/// one `::` the groups on both sides together number at most seven, the
/// `::` standing for the missing (at least one) zero groups; the side
/// after `::` may likewise end in an embedded IPv4 literal.
pub open spec fn is_ipv6_bytes(s: Seq<u8>) -> bool {
    match find_dc(s) {
        None => {
            let parts = split_on(s, COLON);
            ||| (parts.len() == 8 && all_h16(parts))
            ||| (parts.len() == 7 && all_h16(parts.take(6)) && is_ipv4_bytes(parts[6]))
        },
        Some(i) => {
            let lg = groups_of(s.take(i));
            let rg = groups_of(s.skip(i + 2));
            ||| (all_h16(lg) && all_h16(rg) && lg.len() + rg.len() <= 7)
            ||| (all_h16(lg) && rg.len() >= 1 && all_h16(rg.drop_last()) && is_ipv4_bytes(
                rg.last(),
            ) && lg.len() + rg.len() + 1 <= 7)
        },
    }
}

/// The group values denoted by a list of hexadecimal groups.
pub open spec fn h16_vals(parts: Seq<Seq<u8>>) -> Seq<nat> {
    parts.map_values(|p: Seq<u8>| hex_val(p))
}

/// The two group values denoted by an embedded IPv4 literal.
pub open spec fn v4_groups(t: Seq<u8>) -> Seq<nat> {
    seq![
        ipv4_octet(t, 0) * 256 + ipv4_octet(t, 1),
        ipv4_octet(t, 2) * 256 + ipv4_octet(t, 3),
    ]
}

/// `n` zero groups (none when `n` is negative).
pub open spec fn zero_groups(n: int) -> Seq<nat> {
    if n >= 0 {
        Seq::new(n as nat, |k: int| 0nat)
    } else {
        Seq::<nat>::empty()
    }
}

/// The eight group values an IPv6 literal denotes, most significant
/// first.
pub open spec fn ipv6_groups(s: Seq<u8>) -> Seq<nat> {
    match find_dc(s) {
        None => {
            let parts = split_on(s, COLON);
            if parts.len() == 8 {
                h16_vals(parts)
            } else {
                h16_vals(parts.take(6)) + v4_groups(parts[6])
            }
        },
        Some(i) => {
            let lg = groups_of(s.take(i));
            let rg = groups_of(s.skip(i + 2));
            if rg.len() >= 1 && is_ipv4_bytes(rg.last()) {
                h16_vals(lg) + zero_groups(8 - lg.len() - rg.len() - 1) + h16_vals(rg.drop_last())
                    + v4_groups(rg.last())
            } else {
                h16_vals(lg) + zero_groups(8 - lg.len() - rg.len()) + h16_vals(rg)
            }
        },
    }
}

/// The 128 address bits denoted by a list of group values.
pub open spec fn pack_groups(g: Seq<nat>) -> nat
    decreases g.len(),
{
    if g.len() == 0 {
        0
    } else {
        pack_groups(g.drop_last()) * 65536 + g.last()
    }
}

/// The address an IPv6 literal denotes.
pub open spec fn spec_ipv6_of(s: Seq<u8>) -> IpAddress {
    IpAddress::V6 { bits: pack_groups(ipv6_groups(s)) as u128 }
}

/// A hexadecimal group is never an IPv4 literal (it holds no dot).
proof fn lemma_h16_not_ipv4(tok: Seq<u8>)
    requires
        is_h16(tok),
    ensures
        !is_ipv4_bytes(tok),
{
    assert forall|i: int| 0 <= i < tok.len() implies tok[i] != DOT by {
        assert(is_hex_digit(tok[i]));
    }
    lemma_split_no_sep(tok, DOT);
}

/// Packing eight explicit group values agrees with the packed-bits form
/// of [`crate::ip::ip6_bits_of_groups`].
proof fn lemma_pack8(g0: u16, g1: u16, g2: u16, g3: u16, g4: u16, g5: u16, g6: u16, g7: u16)
    ensures
        pack_groups(
            seq![
                g0 as nat,
                g1 as nat,
                g2 as nat,
                g3 as nat,
                g4 as nat,
                g5 as nat,
                g6 as nat,
                g7 as nat,
            ],
        ) == crate::ip::ip6_bits_of_groups(g0, g1, g2, g3, g4, g5, g6, g7),
{
    let s8 = seq![
        g0 as nat,
        g1 as nat,
        g2 as nat,
        g3 as nat,
        g4 as nat,
        g5 as nat,
        g6 as nat,
        g7 as nat,
    ];
    let s7 = seq![g0 as nat, g1 as nat, g2 as nat, g3 as nat, g4 as nat, g5 as nat, g6 as nat];
    let s6 = seq![g0 as nat, g1 as nat, g2 as nat, g3 as nat, g4 as nat, g5 as nat];
    let s5 = seq![g0 as nat, g1 as nat, g2 as nat, g3 as nat, g4 as nat];
    let s4 = seq![g0 as nat, g1 as nat, g2 as nat, g3 as nat];
    let s3 = seq![g0 as nat, g1 as nat, g2 as nat];
    let s2 = seq![g0 as nat, g1 as nat];
    let s1 = seq![g0 as nat];
    assert(s8.drop_last() =~= s7);
    assert(s7.drop_last() =~= s6);
    assert(s6.drop_last() =~= s5);
    assert(s5.drop_last() =~= s4);
    assert(s4.drop_last() =~= s3);
    assert(s3.drop_last() =~= s2);
    assert(s2.drop_last() =~= s1);
    assert(s1.drop_last() =~= Seq::<nat>::empty());
    assert(pack_groups(Seq::<nat>::empty()) == 0);
    assert(pack_groups(s1) == g0 as nat);
    assert(pack_groups(s2) == pack_groups(s1) * 65536 + g1 as nat);
    assert(pack_groups(s3) == pack_groups(s2) * 65536 + g2 as nat);
    assert(pack_groups(s4) == pack_groups(s3) * 65536 + g3 as nat);
    assert(pack_groups(s5) == pack_groups(s4) * 65536 + g4 as nat);
    assert(pack_groups(s6) == pack_groups(s5) * 65536 + g5 as nat);
    assert(pack_groups(s7) == pack_groups(s6) * 65536 + g6 as nat);
    assert(pack_groups(s8) == pack_groups(s7) * 65536 + g7 as nat);
}

/// The group values of a list of `u16`s, as mathematical integers.
pub open spec fn vals_of(g: Seq<u16>) -> Seq<nat> {
    Seq::new(g.len(), |k: int| g[k] as nat)
}

/// Parse the first `upto` ranges as 16-bit hexadecimal groups. `None`
/// means one of them is not such a group.
#[verifier::loop_isolation(false)]
fn parse_h16_list(s: &[u8], ranges: &Vec<(usize, usize)>, upto: usize) -> (r: Option<Vec<u16>>)
    requires
        upto <= ranges@.len(),
        forall|k: int| 0 <= k < ranges@.len() ==> (#[trigger] ranges@[k]).0 <= ranges@[k].1
            <= s@.len(),
    ensures
        match r {
            Some(gv) => gv@.len() == upto && forall|m: int|
                0 <= m < upto ==> is_h16(
                    s@.subrange((#[trigger] ranges@[m]).0 as int, ranges@[m].1 as int),
                ) && (gv@[m] as nat) == hex_val(
                    s@.subrange(ranges@[m].0 as int, ranges@[m].1 as int),
                ),
            None => exists|m: int|
                0 <= m < upto && !is_h16(
                    s@.subrange((#[trigger] ranges@[m]).0 as int, ranges@[m].1 as int),
                ),
        },
{
    let mut gv: Vec<u16> = Vec::new();
    let mut k: usize = 0;
    while k < upto
        invariant
            k <= upto,
            gv@.len() == k,
            forall|m: int| 0 <= m < k ==> is_h16(
                s@.subrange((#[trigger] ranges@[m]).0 as int, ranges@[m].1 as int),
            ) && (gv@[m] as nat) == hex_val(
                s@.subrange(ranges@[m].0 as int, ranges@[m].1 as int),
            ),
        decreases upto - k,
    {
        let rk = ranges[k];
        match parse_h16(s, rk.0, rk.1) {
            Some(v) => {
                gv.push(v);
            },
            None => {
                return None;
            },
        }
        k = k + 1;
    }
    Some(gv)
}

/// Mapping to group values commutes with appending.
proof fn lemma_vals_push(g: Seq<u16>, x: u16)
    ensures
        vals_of(g.push(x)) == vals_of(g).push(x as nat),
{
    assert(vals_of(g.push(x)) =~= vals_of(g).push(x as nat));
}

/// Find the first `::` of `s[lo..hi]`.
#[verifier::loop_isolation(false)]
fn find_first_dc(s: &[u8], lo: usize, hi: usize) -> (r: Option<usize>)
    requires
        lo <= hi <= s@.len(),
    ensures
        ({
            let t = s@.subrange(lo as int, hi as int);
            match r {
                Some(d) => lo <= d && d + 1 < hi && find_dc(t) == Some(d - lo),
                None => find_dc(t) is None,
            }
        }),
{
    let ghost t = s@.subrange(lo as int, hi as int);
    let mut i: usize = lo;
    while hi - i > 1
        invariant
            lo <= i <= hi,
            forall|j: int| lo <= j < i ==> !(#[trigger] s@[j] == COLON && s@[j + 1] == COLON),
        decreases hi - i,
    {
        if s[i] == COLON && s[i + 1] == COLON {
            proof {
                assert(dc_at(t, i - lo));
                assert forall|j: int| 0 <= j < i - lo implies !dc_at(t, j) by {
                    assert(t[j] == s@[lo + j]);
                    assert(t[j + 1] == s@[lo + j + 1]);
                }
                lemma_find_dc_at(t, i - lo);
            }
            return Some(i);
        }
        i = i + 1;
    }
    proof {
        assert forall|j: int| !dc_at(t, j) by {
            if 0 <= j && j + 1 < t.len() {
                assert(t[j] == s@[lo + j]);
                assert(t[j + 1] == s@[lo + j + 1]);
            }
        }
        lemma_find_dc_none(t);
    }
    None
}

/// Build an IPv6 address from exactly eight group values.
fn ip_from_groups(gv: &Vec<u16>) -> (ip: IpAddress)
    requires
        gv@.len() == 8,
    ensures
        ip is V6,
        ip->bits as nat == pack_groups(vals_of(gv@)),
{
    let ip = IpAddress::v6(gv[0], gv[1], gv[2], gv[3], gv[4], gv[5], gv[6], gv[7]);
    proof {
        lemma_pack8(gv@[0], gv@[1], gv@[2], gv@[3], gv@[4], gv@[5], gv@[6], gv@[7]);
        assert(seq![
            gv@[0] as nat,
            gv@[1] as nat,
            gv@[2] as nat,
            gv@[3] as nat,
            gv@[4] as nat,
            gv@[5] as nat,
            gv@[6] as nat,
            gv@[7] as nat,
        ] =~= vals_of(gv@));
    }
    ip
}

/// The two group values an already-parsed embedded IPv4 address stands
/// for.
fn v4_pair_of(ip4: &IpAddress) -> (r: (u16, u16))
    requires
        *ip4 is V4,
    ensures
        r.0 as nat == (ip4->a as nat) * 256 + ip4->b as nat,
        r.1 as nat == (ip4->c as nat) * 256 + ip4->d as nat,
{
    match ip4 {
        IpAddress::V4 { a, b, c, d } => (
            (*a as u16) * 256 + (*b as u16),
            (*c as u16) * 256 + (*d as u16),
        ),
        IpAddress::V6 { .. } => {
            proof {
                assert(false);
            }
            (0, 0)
        },
    }
}

/// Concatenate head groups, the zero groups a `::` stands for, tail
/// groups, and the embedded IPv4 group pair if any.
#[verifier::loop_isolation(false)]
fn assemble_groups(head: Vec<u16>, zeros: usize, tailv: Vec<u16>, v4pair: Option<(u16, u16)>) -> (gv:
    Vec<u16>)
    requires
        head@.len() + zeros + tailv@.len() + 2 <= usize::MAX,
    ensures
        vals_of(gv@) == vals_of(head@) + zero_groups(zeros as int) + vals_of(tailv@) + (match v4pair {
            Some(p) => seq![p.0 as nat, p.1 as nat],
            None => Seq::<nat>::empty(),
        }),
        gv@.len() == head@.len() + zeros + tailv@.len() + (if v4pair is Some {
            2int
        } else {
            0
        }),
{
    let ghost headvals = vals_of(head@);
    let mut gv = head;
    let mut z: usize = 0;
    while z < zeros
        invariant
            z <= zeros,
            vals_of(gv@) == headvals + zero_groups(z as int),
        decreases zeros - z,
    {
        let ghost g0 = gv@;
        gv.push(0);
        proof {
            lemma_vals_push(g0, 0);
            assert(zero_groups(z + 1) =~= zero_groups(z as int).push(0nat));
            assert(vals_of(gv@) =~= headvals + zero_groups(z + 1));
        }
        z = z + 1;
    }
    let ghost with_zeros = vals_of(gv@);
    let mut m: usize = 0;
    while m < tailv.len()
        invariant
            m <= tailv@.len(),
            vals_of(gv@) == with_zeros + vals_of(tailv@.take(m as int)),
        decreases tailv@.len() - m,
    {
        let v = tailv[m];
        let ghost g0 = gv@;
        gv.push(v);
        proof {
            lemma_vals_push(g0, v);
            assert(tailv@.take(m + 1) =~= tailv@.take(m as int).push(v));
            lemma_vals_push(tailv@.take(m as int), v);
            assert(vals_of(gv@) =~= with_zeros + vals_of(tailv@.take(m + 1)));
        }
        m = m + 1;
    }
    proof {
        assert(tailv@.take(tailv@.len() as int) =~= tailv@);
    }
    match v4pair {
        Some(p) => {
            let ghost g0 = gv@;
            gv.push(p.0);
            let ghost g1 = gv@;
            gv.push(p.1);
            proof {
                lemma_vals_push(g0, p.0);
                lemma_vals_push(g1, p.1);
                assert(vals_of(gv@) =~= headvals + zero_groups(zeros as int) + vals_of(tailv@)
                    + seq![p.0 as nat, p.1 as nat]);
            }
        },
        None => {
            proof {
                assert(vals_of(gv@) =~= headvals + zero_groups(zeros as int) + vals_of(tailv@)
                    + Seq::<nat>::empty());
            }
        },
    }
    gv
}

/// Parse the full (uncompressed) form of an IPv6 literal: eight groups,
/// or six groups and an embedded IPv4 literal.
#[verifier::loop_isolation(false)]
fn parse_ipv6_full(s: &[u8], lo: usize, hi: usize) -> (r: Option<IpAddress>)
    requires
        lo <= hi <= s@.len(),
        find_dc(s@.subrange(lo as int, hi as int)) is None,
    ensures
        ({
            let t = s@.subrange(lo as int, hi as int);
            match r {
                Some(ip) => is_ipv6_bytes(t) && ip == spec_ipv6_of(t),
                None => !is_ipv6_bytes(t),
            }
        }),
{
    let ghost t = s@.subrange(lo as int, hi as int);
    let ranges = split_ranges(s, lo, hi, COLON);
    let ghost parts = split_on(t, COLON);
    proof {
        assert(forall|k: int|
            0 <= k < ranges@.len() ==> parts[k] == s@.subrange(
                (#[trigger] ranges@[k]).0 as int,
                ranges@[k].1 as int,
            ));
    }
    if ranges.len() == 8 {
        match parse_h16_list(s, &ranges, 8) {
            Some(gv) => {
                proof {
                    assert(all_h16(parts));
                    assert(is_ipv6_bytes(t));
                    assert(vals_of(gv@) =~= h16_vals(parts));
                }
                let ip = ip_from_groups(&gv);
                proof {
                    assert(ipv6_groups(t) == h16_vals(parts));
                    assert(ip == spec_ipv6_of(t));
                }
                Some(ip)
            },
            None => {
                proof {
                    assert(!all_h16(parts));
                }
                None
            },
        }
    } else if ranges.len() == 7 {
        let gv6 = match parse_h16_list(s, &ranges, 6) {
            Some(gv) => gv,
            None => {
                proof {
                    let m = choose|m: int|
                        0 <= m < 6 && !is_h16(
                            s@.subrange((ranges@[m]).0 as int, ranges@[m].1 as int),
                        );
                    assert(parts.take(6)[m] == parts[m]);
                    assert(!all_h16(parts.take(6)));
                }
                return None;
            },
        };
        let r6 = ranges[6];
        match parse_ipv4(s, r6.0, r6.1) {
            Some(ip4) => {
                proof {
                    assert(is_ipv4_bytes(parts[6]));
                    assert(is_ipv6_bytes(t));
                }
                let p = v4_pair_of(&ip4);
                let gv = assemble_groups(gv6, 0, Vec::new(), Some(p));
                proof {
                    assert(ipv4_octet(parts[6], 0) <= 255 && ipv4_octet(parts[6], 1) <= 255
                        && ipv4_octet(parts[6], 2) <= 255 && ipv4_octet(parts[6], 3) <= 255);
                    assert(vals_of(gv@) =~= h16_vals(parts.take(6)) + v4_groups(parts[6]));
                    assert(ipv6_groups(t) == h16_vals(parts.take(6)) + v4_groups(parts[6]));
                    assert(gv@.len() == 8);
                }
                let ip = ip_from_groups(&gv);
                proof {
                    assert(ip == spec_ipv6_of(t));
                }
                Some(ip)
            },
            None => {
                proof {
                    assert(!is_ipv4_bytes(parts[6]));
                }
                None
            },
        }
    } else {
        proof {
            assert(parts.len() == ranges@.len());
        }
        None
    }
}

/// Parse the compressed form of an IPv6 literal, around its first `::`
/// (at absolute index `dcpos`).
#[verifier::loop_isolation(false)]
fn parse_ipv6_compressed(s: &[u8], lo: usize, hi: usize, dcpos: usize) -> (r: Option<IpAddress>)
    requires
        lo <= hi <= s@.len(),
        lo <= dcpos,
        dcpos + 1 < hi,
        find_dc(s@.subrange(lo as int, hi as int)) == Some(dcpos - lo),
    ensures
        ({
            let t = s@.subrange(lo as int, hi as int);
            match r {
                Some(ip) => is_ipv6_bytes(t) && ip == spec_ipv6_of(t),
                None => !is_ipv6_bytes(t),
            }
        }),
{
    let ghost t = s@.subrange(lo as int, hi as int);
    let ghost i0 = dcpos - lo;
    let ghost lg = groups_of(t.take(i0));
    let ghost rg = groups_of(t.skip(i0 + 2));
    // Head side: the groups before the `::`.
    let mut head: Vec<u16> = Vec::new();
    if dcpos > lo {
        let hranges = split_ranges(s, lo, dcpos, COLON);
        proof {
            assert(t.take(i0) =~= s@.subrange(lo as int, dcpos as int));
            assert(forall|k: int|
                0 <= k < hranges@.len() ==> lg[k] == s@.subrange(
                    (#[trigger] hranges@[k]).0 as int,
                    hranges@[k].1 as int,
                ));
            assert(lg.len() == hranges@.len());
        }
        head = match parse_h16_list(s, &hranges, hranges.len()) {
            Some(gv) => gv,
            None => {
                proof {
                    assert(!all_h16(lg));
                }
                return None;
            },
        };
        proof {
            assert(vals_of(head@) =~= h16_vals(lg));
        }
    } else {
        proof {
            assert(t.take(i0) =~= Seq::<u8>::empty());
            assert(lg =~= Seq::<Seq<u8>>::empty());
            assert(vals_of(head@) =~= h16_vals(lg));
        }
    }
    if head.len() > 7 {
        return None;
    }
    // Tail side: the groups after the `::`, the last possibly an
    // embedded IPv4 literal.
    let mut tailv: Vec<u16> = Vec::new();
    let mut v4pair: Option<(u16, u16)> = None;
    if dcpos + 2 < hi {
        let tranges = split_ranges(s, dcpos + 2, hi, COLON);
        proof {
            assert(t.skip(i0 + 2) =~= s@.subrange(dcpos + 2, hi as int));
            assert(forall|k: int|
                0 <= k < tranges@.len() ==> rg[k] == s@.subrange(
                    (#[trigger] tranges@[k]).0 as int,
                    tranges@[k].1 as int,
                ));
            assert(rg.len() == tranges@.len());
        }
        let nt = tranges.len();
        tailv = match parse_h16_list(s, &tranges, nt - 1) {
            Some(gv) => gv,
            None => {
                proof {
                    let m = choose|m: int|
                        0 <= m < nt - 1 && !is_h16(
                            s@.subrange((tranges@[m]).0 as int, tranges@[m].1 as int),
                        );
                    assert(rg.drop_last()[m] == rg[m]);
                    assert(!all_h16(rg.drop_last()));
                    assert(!all_h16(rg));
                }
                return None;
            },
        };
        proof {
            assert(vals_of(tailv@) =~= h16_vals(rg.drop_last()));
        }
        let rl = tranges[nt - 1];
        match parse_h16(s, rl.0, rl.1) {
            Some(v) => {
                let ghost tv0 = tailv@;
                tailv.push(v);
                proof {
                    lemma_vals_push(tv0, v);
                    lemma_h16_not_ipv4(rg.last());
                    assert(h16_vals(rg) =~= h16_vals(rg.drop_last()).push(hex_val(rg.last())));
                    assert(vals_of(tailv@) =~= h16_vals(rg));
                }
            },
            None => {
                match parse_ipv4(s, rl.0, rl.1) {
                    Some(ip4) => {
                        proof {
                            assert(is_ipv4_bytes(rg.last()));
                        }
                        let p = v4_pair_of(&ip4);
                        proof {
                            assert(ipv4_octet(rg.last(), 0) <= 255 && ipv4_octet(rg.last(), 1)
                                <= 255 && ipv4_octet(rg.last(), 2) <= 255 && ipv4_octet(
                                rg.last(),
                                3,
                            ) <= 255);
                            assert(seq![p.0 as nat, p.1 as nat] =~= v4_groups(rg.last()));
                        }
                        v4pair = Some(p);
                    },
                    None => {
                        proof {
                            assert(!all_h16(rg));
                            assert(!is_ipv4_bytes(rg.last()));
                        }
                        return None;
                    },
                }
            },
        }
    } else {
        proof {
            assert(t.skip(i0 + 2) =~= Seq::<u8>::empty());
            assert(rg =~= Seq::<Seq<u8>>::empty());
            assert(vals_of(tailv@) =~= h16_vals(rg));
        }
    }
    if tailv.len() > 7 {
        return None;
    }
    // The `::` must stand for at least one zero group.
    let tail_total = tailv.len() + (if v4pair.is_some() {
        2
    } else {
        0
    });
    if head.len() + tail_total > 7 {
        proof {
            if v4pair is Some {
                assert(!is_h16(rg.last()));
                assert(!all_h16(rg));
            } else {
                if rg.len() >= 1 {
                    lemma_h16_not_ipv4(rg.last());
                }
            }
        }
        return None;
    }
    proof {
        if v4pair is Some {
            assert(!is_h16(rg.last()));
            assert(lg.len() + rg.len() + 1 <= 7);
        } else {
            if rg.len() >= 1 {
                lemma_h16_not_ipv4(rg.last());
            }
            assert(lg.len() + rg.len() <= 7);
        }
        assert(is_ipv6_bytes(t));
    }
    let zeros = 8 - (head.len() + tail_total);
    let ghost headn = head@.len();
    let ghost tailn = tailv@.len();
    let gv = assemble_groups(head, zeros, tailv, v4pair);
    proof {
        assert(gv@.len() == 8);
        if v4pair is Some {
            assert(zeros == 8 - lg.len() - rg.len() - 1);
            assert(vals_of(gv@) =~= h16_vals(lg) + zero_groups(8 - lg.len() - rg.len() - 1)
                + h16_vals(rg.drop_last()) + v4_groups(rg.last()));
        } else {
            assert(zeros == 8 - lg.len() - rg.len());
            assert(vals_of(gv@) =~= h16_vals(lg) + zero_groups(8 - lg.len() - rg.len())
                + h16_vals(rg));
        }
        assert(vals_of(gv@) == ipv6_groups(t));
    }
    let ip = ip_from_groups(&gv);
    proof {
        assert(ip == spec_ipv6_of(t));
    }
    Some(ip)
}

/// Parse `s[lo..hi]` as an IPv6 literal.
pub fn parse_ipv6(s: &[u8], lo: usize, hi: usize) -> (r: Option<IpAddress>)
    requires
        lo <= hi <= s@.len(),
    ensures
        ({
            let t = s@.subrange(lo as int, hi as int);
            match r {
                Some(ip) => is_ipv6_bytes(t) && ip == spec_ipv6_of(t),
                None => !is_ipv6_bytes(t),
            }
        }),
{
    match find_first_dc(s, lo, hi) {
        None => parse_ipv6_full(s, lo, hi),
        Some(d) => parse_ipv6_compressed(s, lo, hi, d),
    }
}

} // verus!
