//! Textual IP-address parsing, stated over byte sequences.
//!
//! The accepted grammar is the usual one: IPv4 as four decimal octets
//! separated by dots, each at most 255 with no leading zero; IPv6 as up to
//! eight 16-bit hexadecimal groups separated by colons, with at most one
//! `::` standing for one or more zero groups, and optionally the last two
//! groups written as an embedded IPv4 address. The whole input must be
//! consumed; anything else is rejected.

use vstd::prelude::*;

use crate::ip::IpAddress;

verus! {

/// The numeric base in use: 16 for hexadecimal, 10 for decimal.
pub open spec fn radix(hex: bool) -> int {
    if hex {
        16
    } else {
        10
    }
}

/// Whether `b` is a digit of the given base (hex accepts both letter cases).
pub open spec fn digit_ok(b: u8, hex: bool) -> bool {
    (48 <= b && b <= 57) || (hex && ((97 <= b && b <= 102) || (65 <= b && b <= 70)))
}

/// The numeric value of a digit byte.
pub open spec fn digit_val(b: u8, hex: bool) -> int {
    if 48 <= b && b <= 57 {
        b - 48
    } else if 97 <= b && b <= 102 {
        b - 87
    } else {
        b - 55
    }
}

/// The end of the run of digits starting at `pos`.
pub open spec fn digits_end(s: Seq<u8>, pos: int, hex: bool) -> int
    decreases s.len() - pos,
{
    if pos < 0 || pos >= s.len() || !digit_ok(s[pos], hex) {
        pos
    } else {
        digits_end(s, pos + 1, hex)
    }
}

/// The value of the digit string `s[lo..hi]` in the given base.
pub open spec fn num_val(s: Seq<u8>, lo: int, hi: int, hex: bool) -> int
    decreases hi - lo,
{
    if lo >= hi {
        0
    } else {
        num_val(s, lo, hi - 1, hex) * radix(hex) + digit_val(s[hi - 1], hex)
    }
}

/// `radix(hex)` raised to the power `n`.
pub open spec fn radix_pow(hex: bool, n: int) -> int
    decreases n,
{
    if n <= 0 {
        1
    } else {
        radix(hex) * radix_pow(hex, n - 1)
    }
}

/// The run of digits found by `digits_end` is exactly that: digits up to the
/// end, a non-digit (or the end of input) after it.
pub proof fn lemma_digits_end(s: Seq<u8>, pos: int, hex: bool)
    requires
        0 <= pos <= s.len(),
    ensures
        pos <= digits_end(s, pos, hex) <= s.len(),
        forall|j: int| pos <= j < digits_end(s, pos, hex) ==> digit_ok(s[j], hex),
        digits_end(s, pos, hex) < s.len() ==> !digit_ok(s[digits_end(s, pos, hex)], hex),
    decreases s.len() - pos,
{
    if pos < s.len() && digit_ok(s[pos], hex) {
        lemma_digits_end(s, pos + 1, hex);
    }
}

/// A digit string of length `n` has value below `radix^n`.
pub proof fn lemma_num_val_bound(s: Seq<u8>, lo: int, hi: int, hex: bool)
    requires
        0 <= lo <= hi <= s.len(),
        forall|j: int| lo <= j < hi ==> digit_ok(s[j], hex),
    ensures
        0 <= num_val(s, lo, hi, hex) < radix_pow(hex, hi - lo),
    decreases hi - lo,
{
    if lo >= hi {
    } else {
        lemma_num_val_bound(s, lo, hi - 1, hex);
        let v = num_val(s, lo, hi - 1, hex);
        let d = digit_val(s[hi - 1], hex);
        let r = radix(hex);
        let p = radix_pow(hex, hi - 1 - lo);
        assert(0 <= d < r);
        assert(v * r + d < p * r) by (nonlinear_arith)
            requires
                0 <= v < p,
                0 <= d < r,
                2 <= r,
        ;
        assert(radix_pow(hex, hi - lo) == r * radix_pow(hex, hi - 1 - lo));
    }
}

/// Result of reading a bounded number at a position: the value and the
/// position just past it.
pub open spec fn read_dec_u8(s: Seq<u8>, pos: int) -> Option<(u8, int)> {
    let end = digits_end(s, pos, false);
    let n = end - pos;
    if n < 1 || n > 3 {
        None
    } else if n > 1 && s[pos] == 48 {
        None
    } else if num_val(s, pos, end, false) > 255 {
        None
    } else {
        Some((num_val(s, pos, end, false) as u8, end))
    }
}

/// Reads a 16-bit hexadecimal group: one to four hex digits.
pub open spec fn read_hex_u16(s: Seq<u8>, pos: int) -> Option<(u16, int)> {
    let end = digits_end(s, pos, true);
    let n = end - pos;
    if n < 1 || n > 4 {
        None
    } else {
        Some((num_val(s, pos, end, true) as u16, end))
    }
}

/// Reads a dotted-quad IPv4 address starting at `pos`.
pub open spec fn read_ipv4_at(s: Seq<u8>, pos: int) -> Option<(u8, u8, u8, u8, int)> {
    match read_dec_u8(s, pos) {
        None => None,
        Some((a, p1)) => if p1 < s.len() && s[p1] == 46 {
            match read_dec_u8(s, p1 + 1) {
                None => None,
                Some((b, p2)) => if p2 < s.len() && s[p2] == 46 {
                    match read_dec_u8(s, p2 + 1) {
                        None => None,
                        Some((c, p3)) => if p3 < s.len() && s[p3] == 46 {
                            match read_dec_u8(s, p3 + 1) {
                                None => None,
                                Some((d, p4)) => Some((a, b, c, d, p4)),
                            }
                        } else {
                            None
                        },
                    }
                } else {
                    None
                },
            }
        } else {
            None
        },
    }
}

/// The 16-bit group formed by two octets of an embedded IPv4 address.
pub open spec fn group_of(hi: u8, lo: u8) -> u16 {
    ((hi as int) * 256 + (lo as int)) as u16
}

/// Reads an embedded IPv4 address, preceded by a `:` separator unless it is
/// the first item.
pub open spec fn read_sep_ipv4(s: Seq<u8>, pos: int, first: bool) -> Option<(u8, u8, u8, u8, int)> {
    if first {
        read_ipv4_at(s, pos)
    } else if 0 <= pos < s.len() && s[pos] == 58 {
        read_ipv4_at(s, pos + 1)
    } else {
        None
    }
}

/// Reads a hexadecimal group, preceded by a `:` separator unless it is the
/// first item.
pub open spec fn read_sep_hex(s: Seq<u8>, pos: int, first: bool) -> Option<(u16, int)> {
    if first {
        read_hex_u16(s, pos)
    } else if 0 <= pos < s.len() && s[pos] == 58 {
        read_hex_u16(s, pos + 1)
    } else {
        None
    }
}

/// Greedily reads colon-separated 16-bit groups, starting at group index `i`
/// with room for `limit` groups in all. An embedded IPv4 address may supply
/// the final two groups, which sets the flag and stops the scan. Returns the
/// groups read, the position reached, and that flag.
pub open spec fn read_groups(s: Seq<u8>, pos: int, i: int, limit: int) -> (Seq<u16>, int, bool)
    decreases limit - i,
{
    if i >= limit {
        (Seq::<u16>::empty(), pos, false)
    } else {
        let v4 = if i < limit - 1 {
            read_sep_ipv4(s, pos, i == 0)
        } else {
            None
        };
        match v4 {
            Some((a, b, c, d, p2)) => (seq![group_of(a, b), group_of(c, d)], p2, true),
            None => match read_sep_hex(s, pos, i == 0) {
                Some((g, p2)) => {
                    let rest = read_groups(s, p2, i + 1, limit);
                    (seq![g] + rest.0, rest.1, rest.2)
                },
                None => (Seq::<u16>::empty(), pos, false),
            },
        }
    }
}

/// A sequence of `n` zero groups.
pub open spec fn zero_groups(n: int) -> Seq<u16> {
    Seq::new(n as nat, |i: int| 0u16)
}

/// The address formed by eight groups.
pub open spec fn v6_of(g: Seq<u16>) -> IpAddress
    recommends
        g.len() == 8,
{
    IpAddress::V6(g[0], g[1], g[2], g[3], g[4], g[5], g[6], g[7])
}

/// Parses a complete IPv4 address: a dotted quad consuming all of `s`.
pub open spec fn parse_ipv4(s: Seq<u8>) -> Option<IpAddress> {
    match read_ipv4_at(s, 0) {
        Some((a, b, c, d, p)) => if p == s.len() {
            Some(IpAddress::V4(a, b, c, d))
        } else {
            None
        },
        None => None,
    }
}

/// Parses a complete IPv6 address: either eight groups outright, or a head,
/// a `::` standing for at least one zero group, and a tail, consuming all of
/// `s`. An embedded IPv4 part may only end the address.
pub open spec fn parse_ipv6(s: Seq<u8>) -> Option<IpAddress> {
    let head = read_groups(s, 0, 0, 8);
    if head.0.len() == 8 {
        if head.1 == s.len() {
            Some(v6_of(head.0))
        } else {
            None
        }
    } else if head.2 {
        None
    } else if head.1 + 1 < s.len() && s[head.1] == 58 && s[head.1 + 1] == 58 {
        let limit = 8 - head.0.len() - 1;
        let tail = read_groups(s, head.1 + 2, 0, limit as int);
        if tail.1 == s.len() {
            Some(v6_of(head.0 + zero_groups(8 - head.0.len() - tail.0.len()) + tail.0))
        } else {
            None
        }
    } else {
        None
    }
}

/// Parses an IP address of either family, IPv4 form first.
pub open spec fn parse_ip(s: Seq<u8>) -> Option<IpAddress> {
    if parse_ipv4(s) is Some {
        parse_ipv4(s)
    } else {
        parse_ipv6(s)
    }
}

/// Whether `b` is a digit of the given base.
pub fn digit_ok_exec(b: u8, hex: bool) -> (r: bool)
    ensures
        r == digit_ok(b, hex),
{
    (48 <= b && b <= 57) || (hex && ((97 <= b && b <= 102) || (65 <= b && b <= 70)))
}

/// The end of the run of digits starting at `pos`.
pub fn digits_end_exec(s: &Vec<u8>, pos: usize, hex: bool) -> (r: usize)
    requires
        pos <= s.len(),
    ensures
        r == digits_end(s@, pos as int, hex),
        pos <= r <= s.len(),
{
    let mut i: usize = pos;
    while i < s.len() && digit_ok_exec(s[i], hex)
        invariant
            pos <= i <= s.len(),
            digits_end(s@, pos as int, hex) == digits_end(s@, i as int, hex),
        decreases s.len() - i,
    {
        i = i + 1;
    }
    proof {
        lemma_digits_end(s@, pos as int, hex);
    }
    i
}

/// Reads a decimal octet: one to three digits, no leading zero, at most 255.
pub fn read_dec_u8_exec(s: &Vec<u8>, pos: usize) -> (r: Option<(u8, usize)>)
    requires
        pos <= s.len(),
    ensures
        (match r {
            Some((v, p)) => read_dec_u8(s@, pos as int) == Some((v, p as int)) && pos <= p
                <= s.len(),
            None => read_dec_u8(s@, pos as int) is None,
        }),
{
    let end = digits_end_exec(s, pos, false);
    let n = end - pos;
    if n < 1 || n > 3 {
        return None;
    }
    if n > 1 && s[pos] == 48 {
        return None;
    }
    proof {
        lemma_digits_end(s@, pos as int, false);
    }
    let mut v: u32 = 0;
    let mut i: usize = pos;
    while i < end
        invariant
            pos <= i <= end <= s.len(),
            end - pos <= 3,
            end == digits_end(s@, pos as int, false),
            forall|j: int| pos <= j < end ==> digit_ok(s@[j], false),
            v == num_val(s@, pos as int, i as int, false),
            v < 1000,
        decreases end - i,
    {
        proof {
            lemma_num_val_bound(s@, pos as int, i as int, false);
            assert(radix_pow(false, 2) == 100) by {
                reveal_with_fuel(radix_pow, 4);
            }
            assert(radix_pow(false, 1) == 10) by {
                reveal_with_fuel(radix_pow, 3);
            }
            assert(radix_pow(false, 0) == 1) by {
                reveal_with_fuel(radix_pow, 2);
            }
            assert(v < 100);
        }
        let d: u8 = s[i] - 48;
        v = v * 10 + (d as u32);
        i = i + 1;
        proof {
            lemma_num_val_bound(s@, pos as int, i as int, false);
            assert(radix_pow(false, 3) == 1000) by {
                reveal_with_fuel(radix_pow, 5);
            }
        }
    }
    if v > 255 {
        None
    } else {
        Some((v as u8, end))
    }
}

/// Reads a 16-bit hexadecimal group: one to four hex digits.
pub fn read_hex_u16_exec(s: &Vec<u8>, pos: usize) -> (r: Option<(u16, usize)>)
    requires
        pos <= s.len(),
    ensures
        (match r {
            Some((v, p)) => read_hex_u16(s@, pos as int) == Some((v, p as int)) && pos <= p
                <= s.len(),
            None => read_hex_u16(s@, pos as int) is None,
        }),
{
    let end = digits_end_exec(s, pos, true);
    let n = end - pos;
    if n < 1 || n > 4 {
        return None;
    }
    proof {
        lemma_digits_end(s@, pos as int, true);
    }
    let mut v: u32 = 0;
    let mut i: usize = pos;
    while i < end
        invariant
            pos <= i <= end <= s.len(),
            end - pos <= 4,
            end == digits_end(s@, pos as int, true),
            forall|j: int| pos <= j < end ==> digit_ok(s@[j], true),
            v == num_val(s@, pos as int, i as int, true),
            v < 65536,
        decreases end - i,
    {
        proof {
            lemma_num_val_bound(s@, pos as int, i as int, true);
            assert(radix_pow(true, 3) == 4096) by {
                reveal_with_fuel(radix_pow, 5);
            }
            assert(radix_pow(true, 2) == 256) by {
                reveal_with_fuel(radix_pow, 4);
            }
            assert(radix_pow(true, 1) == 16) by {
                reveal_with_fuel(radix_pow, 3);
            }
            assert(radix_pow(true, 0) == 1) by {
                reveal_with_fuel(radix_pow, 2);
            }
            assert(v < 4096);
        }
        let b = s[i];
        let d: u8 = if 48 <= b && b <= 57 {
            b - 48
        } else if 97 <= b && b <= 102 {
            b - 87
        } else {
            b - 55
        };
        v = v * 16 + (d as u32);
        i = i + 1;
        proof {
            lemma_num_val_bound(s@, pos as int, i as int, true);
            assert(radix_pow(true, 4) == 65536) by {
                reveal_with_fuel(radix_pow, 6);
            }
        }
    }
    Some((v as u16, end))
}

/// Reads a dotted-quad IPv4 address starting at `pos`.
pub fn read_ipv4_at_exec(s: &Vec<u8>, pos: usize) -> (r: Option<(u8, u8, u8, u8, usize)>)
    requires
        pos <= s.len(),
    ensures
        (match r {
            Some((a, b, c, d, p)) => read_ipv4_at(s@, pos as int) == Some(
                (a, b, c, d, p as int),
            ) && pos <= p <= s.len(),
            None => read_ipv4_at(s@, pos as int) is None,
        }),
{
    let (a, p1) = match read_dec_u8_exec(s, pos) {
        Some(x) => x,
        None => {
            return None;
        },
    };
    if !(p1 < s.len() && s[p1] == 46) {
        return None;
    }
    let (b, p2) = match read_dec_u8_exec(s, p1 + 1) {
        Some(x) => x,
        None => {
            return None;
        },
    };
    if !(p2 < s.len() && s[p2] == 46) {
        return None;
    }
    let (c, p3) = match read_dec_u8_exec(s, p2 + 1) {
        Some(x) => x,
        None => {
            return None;
        },
    };
    if !(p3 < s.len() && s[p3] == 46) {
        return None;
    }
    let (d, p4) = match read_dec_u8_exec(s, p3 + 1) {
        Some(x) => x,
        None => {
            return None;
        },
    };
    Some((a, b, c, d, p4))
}

/// Greedily reads colon-separated groups; see `read_groups`.
pub fn read_groups_exec(s: &Vec<u8>, pos: usize, i: usize, limit: usize) -> (r: (
    Vec<u16>,
    usize,
    bool,
))
    requires
        pos <= s.len(),
        i <= limit,
        limit <= 8,
    ensures
        ({
            let g = read_groups(s@, pos as int, i as int, limit as int);
            r.0@ == g.0 && r.1 as int == g.1 && r.2 == g.2 && pos <= r.1 <= s.len() && i + r.0.len()
                <= limit
        }),
    decreases limit - i,
{
    if i >= limit {
        return (Vec::new(), pos, false);
    }
    if i < limit - 1 {
        let v4 = if i == 0 {
            read_ipv4_at_exec(s, pos)
        } else if pos < s.len() && s[pos] == 58 {
            read_ipv4_at_exec(s, pos + 1)
        } else {
            None
        };
        if let Some((a, b, c, d, p2)) = v4 {
            let mut out: Vec<u16> = Vec::new();
            out.push((a as u16) * 256 + (b as u16));
            out.push((c as u16) * 256 + (d as u16));
            assert(out@ =~= seq![group_of(a, b), group_of(c, d)]);
            return (out, p2, true);
        }
    }
    let hx = if i == 0 {
        read_hex_u16_exec(s, pos)
    } else if pos < s.len() && s[pos] == 58 {
        read_hex_u16_exec(s, pos + 1)
    } else {
        None
    };
    match hx {
        Some((g, p2)) => {
            let rest = read_groups_exec(s, p2, i + 1, limit);
            let mut out: Vec<u16> = Vec::new();
            out.push(g);
            let mut tail = rest.0;
            out.append(&mut tail);
            assert(out@ =~= seq![g] + read_groups(s@, p2 as int, i + 1 as int, limit as int).0);
            (out, rest.1, rest.2)
        },
        None => (Vec::new(), pos, false),
    }
}

/// Parses a complete IPv4 address.
pub fn parse_ipv4_exec(s: &Vec<u8>) -> (r: Option<IpAddress>)
    ensures
        r == parse_ipv4(s@),
{
    match read_ipv4_at_exec(s, 0) {
        Some((a, b, c, d, p)) => if p == s.len() {
            Some(IpAddress::V4(a, b, c, d))
        } else {
            None
        },
        None => None,
    }
}

/// Parses a complete IPv6 address.
pub fn parse_ipv6_exec(s: &Vec<u8>) -> (r: Option<IpAddress>)
    ensures
        r == parse_ipv6(s@),
{
    let head = read_groups_exec(s, 0, 0, 8);
    let head_groups = head.0;
    let p = head.1;
    if head_groups.len() == 8 {
        if p == s.len() {
            return Some(
                IpAddress::V6(
                    head_groups[0],
                    head_groups[1],
                    head_groups[2],
                    head_groups[3],
                    head_groups[4],
                    head_groups[5],
                    head_groups[6],
                    head_groups[7],
                ),
            );
        } else {
            return None;
        }
    }
    if head.2 {
        return None;
    }
    if !(p < s.len() && p + 1 < s.len() && s[p] == 58 && s[p + 1] == 58) {
        return None;
    }
    let limit = 8 - head_groups.len() - 1;
    let tail = read_groups_exec(s, p + 2, 0, limit);
    let tail_groups = tail.0;
    if tail.1 != s.len() {
        return None;
    }
    let zeros = 8 - head_groups.len() - tail_groups.len();
    let mut all = head_groups;
    let mut k: usize = 0;
    while k < zeros
        invariant
            k <= zeros,
            all@ == head_groups@ + zero_groups(k as int),
        decreases zeros - k,
    {
        all.push(0);
        assert(head_groups@ + zero_groups(k + 1 as int) =~= (head_groups@ + zero_groups(
            k as int,
        )).push(0u16));
        k = k + 1;
    }
    let mut tail_moved = tail_groups;
    all.append(&mut tail_moved);
    proof {
        let spec_head = read_groups(s@, 0, 0, 8);
        let spec_tail = read_groups(s@, p + 2 as int, 0, limit as int);
        assert(all@ =~= spec_head.0 + zero_groups(8 - spec_head.0.len() - spec_tail.0.len())
            + spec_tail.0);
    }
    assert(all@.len() == 8);
    Some(IpAddress::V6(all[0], all[1], all[2], all[3], all[4], all[5], all[6], all[7]))
}

/// Parses an IP address of either family, IPv4 form first.
pub fn parse_ip_bytes(s: &Vec<u8>) -> (r: Option<IpAddress>)
    ensures
        r == parse_ip(s@),
{
    match parse_ipv4_exec(s) {
        Some(ip) => Some(ip),
        None => parse_ipv6_exec(s),
    }
}

} // verus!
