//! The round-trip law connecting the renderer to the parser: the canonical
//! text of any address parses back to exactly that address. In particular
//! the response body of the root endpoint is always valid IP-address text.

use vstd::prelude::*;

use crate::ip::IpAddress;
use crate::parse::digit_ok;
use crate::parse::digit_val;
use crate::parse::digits_end;
use crate::parse::lemma_digits_end;
use crate::parse::num_val;
use crate::parse::read_dec_u8;
use crate::parse::group_of;
use crate::parse::parse_ip;
use crate::parse::parse_ipv4;
use crate::parse::parse_ipv6;
use crate::parse::read_groups;
use crate::parse::read_hex_u16;
use crate::parse::read_sep_hex;
use crate::parse::read_sep_ipv4;
use crate::parse::read_ipv4_at;
use crate::parse::v6_of;
use crate::parse::zero_groups;
use crate::render::dec_text;
use crate::render::hex_digit;
use crate::render::hex_text;
use crate::render::best_zero_run;
use crate::render::groups_text;
use crate::render::ip_text;
use crate::render::lemma_zero_run_len_bound;
use crate::render::mapped_prefix;
use crate::render::ipv4_text;
use crate::render::zero_run_len;
use crate::resolve::spec_resolve;

verus! {

/// The value of a digit string depends only on the bytes in range.
proof fn lemma_num_val_congruence(s: Seq<u8>, t: Seq<u8>, lo: int, hi: int, lo2: int, hex: bool)
    requires
        0 <= lo <= hi <= s.len(),
        0 <= lo2,
        lo2 + (hi - lo) <= t.len(),
        forall|j: int| 0 <= j < hi - lo ==> #[trigger] s[lo + j] == t[lo2 + j],
    ensures
        num_val(s, lo, hi, hex) == num_val(t, lo2, lo2 + (hi - lo), hex),
    decreases hi - lo,
{
    if lo < hi {
        lemma_num_val_congruence(s, t, lo, hi - 1, lo2, hex);
        assert(s[lo + (hi - 1 - lo)] == t[lo2 + (hi - 1 - lo)]);
    }
}

/// Every byte of decimal text is a decimal digit.
proof fn lemma_dec_text_digits(n: int)
    requires
        0 <= n,
    ensures
        forall|j: int| 0 <= j < dec_text(n).len() ==> digit_ok(#[trigger] dec_text(n)[j], false),
    decreases n,
{
    if n < 10 {
    } else {
        lemma_dec_text_digits(n / 10);
        assert forall|j: int| 0 <= j < dec_text(n).len() implies digit_ok(
            #[trigger] dec_text(n)[j],
            false,
        ) by {
            if j < dec_text(n / 10).len() {
                assert(dec_text(n)[j] == dec_text(n / 10)[j]);
            } else {
                assert(dec_text(n)[j] == (48 + n % 10) as u8);
            }
        }
    }
}

/// Reading decimal text back gives the number it was made from.
proof fn lemma_dec_text_val(n: int)
    requires
        0 <= n,
    ensures
        num_val(dec_text(n), 0, dec_text(n).len() as int, false) == n,
    decreases n,
{
    let s = dec_text(n);
    if n < 10 {
        assert(num_val(s, 0, 1, false) == num_val(s, 0, 0, false) * 10 + digit_val(s[0], false));
    } else {
        lemma_dec_text_val(n / 10);
        let p = dec_text(n / 10);
        lemma_num_val_congruence(p, s, 0, p.len() as int, 0, false);
        assert(s[s.len() - 1] == (48 + n % 10) as u8);
        assert(num_val(s, 0, s.len() as int, false) == num_val(s, 0, s.len() - 1, false) * 10
            + digit_val(s[s.len() - 1], false));
        assert(num_val(s, 0, s.len() - 1, false) == n / 10);
        assert(digit_val(s[s.len() - 1], false) == n % 10);
    }
}

/// Decimal text of a positive number never starts with a zero digit.
proof fn lemma_dec_text_no_leading_zero(n: int)
    requires
        1 <= n,
    ensures
        dec_text(n)[0] != 48,
    decreases n,
{
    if n < 10 {
    } else {
        lemma_dec_text_no_leading_zero(n / 10);
        assert(dec_text(n)[0] == dec_text(n / 10)[0]);
    }
}

/// Decimal text of an octet value has one to three digits.
proof fn lemma_dec_text_len(n: int)
    requires
        0 <= n < 1000,
    ensures
        1 <= dec_text(n).len() <= 3,
        n < 10 ==> dec_text(n).len() == 1,
        n >= 10 ==> dec_text(n).len() >= 2,
{
    if n < 10 {
    } else if n < 100 {
        assert(dec_text(n).len() == dec_text(n / 10).len() + 1);
    } else {
        assert(dec_text(n).len() == dec_text(n / 10).len() + 1);
        assert(dec_text(n / 10).len() == dec_text(n / 10 / 10).len() + 1);
    }
}

/// A run of `k` digits with a non-digit (or the end) after it is exactly
/// what `digits_end` spans.
proof fn lemma_digits_end_region(s: Seq<u8>, pos: int, k: int, hex: bool)
    requires
        0 <= pos,
        0 <= k,
        pos + k <= s.len(),
        forall|j: int| pos <= j < pos + k ==> digit_ok(#[trigger] s[j], hex),
        pos + k == s.len() || !digit_ok(s[pos + k], hex),
    ensures
        digits_end(s, pos, hex) == pos + k,
    decreases k,
{
    if k > 0 {
        lemma_digits_end_region(s, pos + 1, k - 1, hex);
    }
}

/// An octet's decimal text embedded at `pos`, followed by a non-digit or by
/// the end, reads back as that octet.
proof fn lemma_read_dec_of_text(s: Seq<u8>, pos: int, n: int)
    requires
        0 <= n <= 255,
        0 <= pos,
        pos + dec_text(n).len() <= s.len(),
        s.subrange(pos, pos + dec_text(n).len() as int) == dec_text(n),
        pos + dec_text(n).len() == s.len() || !digit_ok(s[pos + dec_text(n).len()], false),
    ensures
        read_dec_u8(s, pos) == Some((n as u8, pos + dec_text(n).len() as int)),
{
    let t = dec_text(n);
    let m = t.len() as int;
    lemma_dec_text_len(n);
    lemma_dec_text_digits(n);
    assert forall|j: int| pos <= j < pos + m implies digit_ok(#[trigger] s[j], false) by {
        assert(s[j] == s.subrange(pos, pos + m)[j - pos]);
    }
    lemma_digits_end_region(s, pos, m, false);
    if m > 1 {
        lemma_dec_text_no_leading_zero(n);
        assert(s[pos] == s.subrange(pos, pos + m)[0]);
    }
    lemma_dec_text_val(n);
    lemma_num_val_congruence(t, s, 0, m, pos, false);
    assert forall|j: int| 0 <= j < m implies #[trigger] t[0 + j] == s[pos + j] by {
        assert(s[pos + j] == s.subrange(pos, pos + m)[j]);
    }
    assert(num_val(s, pos, pos + m, false) == n);
}

/// A dotted quad filling the rest of the input reads back as its octets.
proof fn lemma_read_ipv4_of_text(s: Seq<u8>, pos: int, a: u8, b: u8, c: u8, d: u8)
    requires
        0 <= pos <= s.len(),
        s.subrange(pos, s.len() as int) == ipv4_text(a, b, c, d),
    ensures
        read_ipv4_at(s, pos) == Some((a, b, c, d, s.len() as int)),
{
    let ta = dec_text(a as int);
    let tb = dec_text(b as int);
    let tc = dec_text(c as int);
    let td = dec_text(d as int);
    let ma = ta.len() as int;
    let mb = tb.len() as int;
    let mc = tc.len() as int;
    let md = td.len() as int;
    let whole = ipv4_text(a, b, c, d);
    assert(whole.len() == ma + 1 + mb + 1 + mc + 1 + md);
    assert forall|j: int| 0 <= j < whole.len() implies #[trigger] s[pos + j] == whole[j] by {
        assert(s.subrange(pos, s.len() as int)[j] == s[pos + j]);
    }
    let dot1 = pos + ma;
    let o1 = dot1 + 1;
    let dot2 = o1 + mb;
    let o2 = dot2 + 1;
    let dot3 = o2 + mc;
    let o3 = dot3 + 1;
    assert(s.len() == o3 + md);
    let p1 = ta + seq![46u8];
    let p2 = p1 + tb;
    let p3 = p2 + seq![46u8];
    let p4 = p3 + tc;
    let p5 = p4 + seq![46u8];
    assert(whole == p5 + td);
    assert forall|k: int| 0 <= k < p2.len() implies #[trigger] whole[k] == p2[k] by {
        assert(p3[k] == p2[k]);
        assert(p4[k] == p3[k]);
        assert(p5[k] == p4[k]);
        assert(whole[k] == p5[k]);
    }
    assert forall|k: int| 0 <= k < p4.len() implies #[trigger] whole[k] == p4[k] by {
        assert(p5[k] == p4[k]);
        assert(whole[k] == p5[k]);
    }
    assert(s.subrange(pos, dot1) =~= ta);
    assert(s[dot1] == 46) by {
        assert(whole[ma] == p2[ma]);
        assert(p2[ma] == p1[ma]);
    }
    assert(s.subrange(o1, dot2) =~= tb) by {
        assert forall|j: int| 0 <= j < mb implies s.subrange(o1, dot2)[j] == tb[j] by {
            assert(whole[ma + 1 + j] == p2[ma + 1 + j]);
            assert(p2[ma + 1 + j] == tb[j]);
        }
    }
    assert(s[dot2] == 46) by {
        assert(whole[dot2 - pos] == p4[dot2 - pos]);
        assert(p4[dot2 - pos] == p3[dot2 - pos]);
        assert(p3[dot2 - pos] == 46);
    }
    assert(s.subrange(o2, dot3) =~= tc) by {
        assert forall|j: int| 0 <= j < mc implies s.subrange(o2, dot3)[j] == tc[j] by {
            assert(whole[o2 - pos + j] == p4[o2 - pos + j]);
            assert(p4[o2 - pos + j] == tc[j]);
        }
    }
    assert(s[dot3] == 46) by {
        assert(whole[dot3 - pos] == p5[dot3 - pos]);
        assert(p5[dot3 - pos] == 46);
    }
    assert(s.subrange(o3, s.len() as int) =~= td) by {
        assert forall|j: int| 0 <= j < md implies s.subrange(o3, s.len() as int)[j] == td[j] by {
            assert(whole[o3 - pos + j] == td[j]);
        }
    }
    lemma_read_dec_of_text(s, pos, a as int);
    lemma_read_dec_of_text(s, o1, b as int);
    lemma_read_dec_of_text(s, o2, c as int);
    lemma_read_dec_of_text(s, o3, d as int);
}

/// The canonical text of an IPv4 address parses back to it.
proof fn lemma_parse_ipv4_of_text(a: u8, b: u8, c: u8, d: u8)
    ensures
        parse_ipv4(ipv4_text(a, b, c, d)) == Some(IpAddress::V4(a, b, c, d)),
        parse_ip(ipv4_text(a, b, c, d)) == Some(IpAddress::V4(a, b, c, d)),
{
    let s = ipv4_text(a, b, c, d);
    assert(s.subrange(0, s.len() as int) =~= s);
    lemma_read_ipv4_of_text(s, 0, a, b, c, d);
}

/// Every byte of hexadecimal text is a hex digit; in particular it is
/// neither a dot nor a colon.
proof fn lemma_hex_text_digits(n: int)
    requires
        0 <= n,
    ensures
        forall|j: int| 0 <= j < hex_text(n).len() ==> digit_ok(#[trigger] hex_text(n)[j], true),
        forall|j: int| 0 <= j < hex_text(n).len() ==> #[trigger] hex_text(n)[j] != 46,
        forall|j: int| 0 <= j < hex_text(n).len() ==> #[trigger] hex_text(n)[j] != 58,
    decreases n,
{
    if n < 16 {
    } else {
        lemma_hex_text_digits(n / 16);
        assert forall|j: int| 0 <= j < hex_text(n).len() implies digit_ok(
            #[trigger] hex_text(n)[j],
            true,
        ) && hex_text(n)[j] != 46 && hex_text(n)[j] != 58 by {
            if j < hex_text(n / 16).len() {
                assert(hex_text(n)[j] == hex_text(n / 16)[j]);
            } else {
                assert(hex_text(n)[j] == hex_digit(n % 16));
            }
        }
    }
}

/// Reading hexadecimal text back gives the number it was made from.
proof fn lemma_hex_text_val(n: int)
    requires
        0 <= n,
    ensures
        num_val(hex_text(n), 0, hex_text(n).len() as int, true) == n,
    decreases n,
{
    let s = hex_text(n);
    if n < 16 {
        assert(num_val(s, 0, 1, true) == num_val(s, 0, 0, true) * 16 + digit_val(s[0], true));
    } else {
        lemma_hex_text_val(n / 16);
        let p = hex_text(n / 16);
        lemma_num_val_congruence(p, s, 0, p.len() as int, 0, true);
        assert(s[s.len() - 1] == hex_digit(n % 16));
        assert(num_val(s, 0, s.len() as int, true) == num_val(s, 0, s.len() - 1, true) * 16
            + digit_val(s[s.len() - 1], true));
        assert(num_val(s, 0, s.len() - 1, true) == n / 16);
        assert(digit_val(s[s.len() - 1], true) == n % 16);
    }
}

/// Hexadecimal text of a 16-bit group has one to four digits.
proof fn lemma_hex_text_len(n: int)
    requires
        0 <= n < 65536,
    ensures
        1 <= hex_text(n).len() <= 4,
{
    if n < 16 {
    } else if n < 256 {
        assert(hex_text(n).len() == hex_text(n / 16).len() + 1);
    } else if n < 4096 {
        assert(hex_text(n).len() == hex_text(n / 16).len() + 1);
        assert(hex_text(n / 16).len() == hex_text(n / 16 / 16).len() + 1);
    } else {
        assert(hex_text(n).len() == hex_text(n / 16).len() + 1);
        assert(hex_text(n / 16).len() == hex_text(n / 16 / 16).len() + 1);
        assert(hex_text(n / 16 / 16).len() == hex_text(n / 16 / 16 / 16).len() + 1);
    }
}

/// A group's hexadecimal text embedded at `pos`, followed by a non-digit or
/// by the end, reads back as that group.
proof fn lemma_read_hex_of_text(s: Seq<u8>, pos: int, n: int)
    requires
        0 <= n <= 65535,
        0 <= pos,
        pos + hex_text(n).len() <= s.len(),
        s.subrange(pos, pos + hex_text(n).len() as int) == hex_text(n),
        pos + hex_text(n).len() == s.len() || !digit_ok(s[pos + hex_text(n).len()], true),
    ensures
        read_hex_u16(s, pos) == Some((n as u16, pos + hex_text(n).len() as int)),
{
    let t = hex_text(n);
    let m = t.len() as int;
    lemma_hex_text_len(n);
    lemma_hex_text_digits(n);
    assert forall|j: int| pos <= j < pos + m implies digit_ok(#[trigger] s[j], true) by {
        assert(s[j] == s.subrange(pos, pos + m)[j - pos]);
    }
    lemma_digits_end_region(s, pos, m, true);
    lemma_hex_text_val(n);
    lemma_num_val_congruence(t, s, 0, m, pos, true);
    assert forall|j: int| 0 <= j < m implies #[trigger] t[0 + j] == s[pos + j] by {
        assert(s[pos + j] == s.subrange(pos, pos + m)[j]);
    }
    assert(num_val(s, pos, pos + m, true) == n);
}

/// Joined group text consists of hex digits and colons only; in particular
/// it contains no dot.
proof fn lemma_groups_text_chars(g: Seq<u16>, lo: int, hi: int)
    requires
        0 <= lo <= hi <= g.len(),
    ensures
        forall|j: int|
            0 <= j < groups_text(g, lo, hi).len() ==> (digit_ok(
                #[trigger] groups_text(g, lo, hi)[j],
                true,
            ) || groups_text(g, lo, hi)[j] == 58),
        forall|j: int| 0 <= j < groups_text(g, lo, hi).len() ==> #[trigger] groups_text(
            g,
            lo,
            hi,
        )[j] != 46,
    decreases hi - lo,
{
    if lo >= hi {
    } else if lo + 1 == hi {
        lemma_hex_text_digits(g[lo] as int);
    } else {
        lemma_hex_text_digits(g[lo] as int);
        lemma_groups_text_chars(g, lo + 1, hi);
        let ht = hex_text(g[lo] as int);
        let mh = ht.len() as int;
        let rest = groups_text(g, lo + 1, hi);
        let whole = groups_text(g, lo, hi);
        assert(whole == (ht + seq![58u8]) + rest);
        assert forall|j: int| 0 <= j < whole.len() implies (digit_ok(#[trigger] whole[j], true)
            || whole[j] == 58) && whole[j] != 46 by {
            if j < mh {
                assert(whole[j] == ht[j]);
            } else if j == mh {
                assert(whole[j] == 58);
            } else {
                assert(whole[j] == rest[j - mh - 1]);
            }
        }
    }
}

/// Where no dot occurs from `pos` on, no embedded IPv4 address can be read.
proof fn lemma_no_dots_ipv4_none(s: Seq<u8>, pos: int)
    requires
        0 <= pos <= s.len(),
        forall|k: int| pos <= k < s.len() ==> #[trigger] s[k] != 46,
    ensures
        read_ipv4_at(s, pos) is None,
{
    lemma_digits_end(s, pos, false);
    match read_dec_u8(s, pos) {
        None => {},
        Some((a, p1)) => {
            assert(p1 == digits_end(s, pos, false));
            if p1 < s.len() {
                assert(s[p1] != 46);
            }
        },
    }
}

/// The text a greedy group read walks over: the groups joined with colons,
/// preceded by one more separating colon except at the very start.
pub open spec fn region_text(i: int, g: Seq<u16>, lo: int, hi: int) -> Seq<u8> {
    if lo >= hi {
        Seq::<u8>::empty()
    } else if i == 0 {
        groups_text(g, lo, hi)
    } else {
        seq![58u8] + groups_text(g, lo, hi)
    }
}

/// A greedy group read over the region text of `g[lo..hi]`, stopped after it
/// by the end of input, a non-digit, or a `::`, reads back exactly those
/// groups and lands just past the region.
proof fn lemma_read_groups_of_text(
    s: Seq<u8>,
    g: Seq<u16>,
    lo: int,
    hi: int,
    pos: int,
    i: int,
    limit: int,
)
    requires
        0 <= lo <= hi <= g.len(),
        0 <= pos <= s.len(),
        0 <= i,
        i + (hi - lo) <= limit,
        forall|k: int| pos <= k < s.len() ==> #[trigger] s[k] != 46,
        pos + region_text(i, g, lo, hi).len() <= s.len(),
        s.subrange(pos, pos + region_text(i, g, lo, hi).len() as int) == region_text(i, g, lo, hi),
        ({
            let q = pos + region_text(i, g, lo, hi).len() as int;
            q == s.len() || (!digit_ok(s[q], true) && (s[q] != 58 || q + 1 == s.len()
                || !digit_ok(s[q + 1], true)))
        }),
    ensures
        read_groups(s, pos, i, limit) == (
            g.subrange(lo, hi),
            pos + region_text(i, g, lo, hi).len() as int,
            false,
        ),
    decreases hi - lo,
{
    let region = region_text(i, g, lo, hi);
    let q = pos + region.len() as int;
    if i < limit - 1 {
        if i == 0 {
            lemma_no_dots_ipv4_none(s, pos);
        } else if pos < s.len() && s[pos] == 58 {
            lemma_no_dots_ipv4_none(s, pos + 1);
        }
        assert(read_sep_ipv4(s, pos, i == 0) is None);
    }
    if hi == lo {
        assert(g.subrange(lo, hi) =~= Seq::<u16>::empty());
        if i >= limit {
        } else {
            if i == 0 {
                assert(digits_end(s, pos, true) == pos);
                assert(read_hex_u16(s, pos) is None);
            } else {
                if pos == s.len() {
                } else if s[pos] != 58 {
                } else {
                    if pos + 1 < s.len() {
                        assert(!digit_ok(s[pos + 1], true));
                    }
                    assert(digits_end(s, pos + 1, true) == pos + 1);
                    assert(read_hex_u16(s, pos + 1) is None);
                }
                assert(read_sep_hex(s, pos, false) is None);
            }
        }
    } else {
        let ht = hex_text(g[lo] as int);
        let mh = ht.len() as int;
        let gt = groups_text(g, lo, hi);
        let rest = groups_text(g, lo + 1, hi);
        let base = if i == 0 {
            pos
        } else {
            pos + 1
        };
        lemma_hex_text_len(g[lo] as int);
        assert forall|j: int| 0 <= j < region.len() implies #[trigger] s[pos + j] == region[j] by {
            assert(s.subrange(pos, q)[j] == s[pos + j]);
        }
        if lo + 1 == hi {
            assert(gt == ht);
        } else {
            assert(gt == (ht + seq![58u8]) + rest);
            assert(gt.len() == mh + 1 + rest.len());
        }
        assert forall|j: int| 0 <= j < gt.len() implies #[trigger] s[base + j] == gt[j] by {
            if i > 0 {
                assert(region == seq![58u8] + gt);
                assert(region[1 + j] == gt[j]);
                assert(s[pos + (1 + j)] == region[1 + j]);
            } else {
                assert(region == gt);
                assert(s[pos + j] == region[j]);
            }
        }
        if i > 0 {
            assert(region == seq![58u8] + gt);
            assert(region[0] == 58);
            assert(s[pos + 0] == region[0]);
            assert(s[pos] == 58);
        }
        let after = base + mh;
        assert(s.subrange(base, after) =~= ht) by {
            assert forall|j: int| 0 <= j < mh implies s.subrange(base, after)[j] == ht[j] by {
                assert(s[base + j] == gt[j]);
                if lo + 1 < hi {
                    assert(gt[j] == (ht + seq![58u8])[j]);
                }
            }
        }
        if lo + 1 < hi {
            assert(gt[mh] == (ht + seq![58u8])[mh]);
            assert(s[base + mh] == gt[mh]);
            assert(s[after] == 58);
        }
        assert(after == s.len() || !digit_ok(s[after], true)) by {
            if lo + 1 == hi {
                assert(after == q);
            } else {
                assert(s[after] == 58);
            }
        }
        lemma_read_hex_of_text(s, base, g[lo] as int);
        assert(read_sep_hex(s, pos, i == 0) == Some((g[lo], after)));
        let region2 = region_text(i + 1, g, lo + 1, hi);
        assert(after + region2.len() == q) by {
            if lo + 1 == hi {
            } else {
                assert(region2 == seq![58u8] + rest);
            }
        }
        assert(s.subrange(after, after + region2.len() as int) =~= region2) by {
            if lo + 1 < hi {
                assert(region2 == seq![58u8] + rest);
                assert forall|j: int| 0 <= j < region2.len() implies s.subrange(
                    after,
                    after + region2.len() as int,
                )[j] == region2[j] by {
                    assert(s[base + (mh + j)] == gt[mh + j]);
                    if j == 0 {
                        assert(gt[mh] == (ht + seq![58u8])[mh]);
                        assert(region2[0] == 58);
                    } else {
                        assert(gt[mh + j] == rest[j - 1]);
                        assert(region2[j] == rest[j - 1]);
                    }
                }
            }
        }
        lemma_read_groups_of_text(s, g, lo + 1, hi, after, i + 1, limit);
        assert(seq![g[lo]] + g.subrange(lo + 1, hi) =~= g.subrange(lo, hi));
    }
}

/// Every group inside a zero run is zero.
proof fn lemma_zero_run_zeros(g: Seq<u16>, i: int)
    requires
        0 <= i <= g.len(),
    ensures
        forall|j: int| i <= j < i + zero_run_len(g, i) ==> g[j] == 0,
    decreases g.len() - i,
{
    if i < g.len() && g[i] == 0 {
        lemma_zero_run_zeros(g, i + 1);
    }
}

/// The best run starts within the sequence (or at its end).
proof fn lemma_best_zero_run_bound(g: Seq<u16>, i: int)
    requires
        0 <= i <= g.len(),
    ensures
        i <= best_zero_run(g, i) <= g.len(),
    decreases g.len() - i,
{
    if i < g.len() {
        lemma_best_zero_run_bound(g, i + 1);
    }
}

/// The canonical text of an IPv6 address that prints in the mapped mixed
/// notation parses back to it.
#[verifier::rlimit(100)]
proof fn lemma_v6_mapped_round_trip(g6: u16, g7: u16)
    ensures
        parse_ipv4(ip_text(IpAddress::V6(0, 0, 0, 0, 0, 0xffff, g6, g7))) is None,
        parse_ipv6(ip_text(IpAddress::V6(0, 0, 0, 0, 0, 0xffff, g6, g7))) == Some(
            IpAddress::V6(0, 0, 0, 0, 0, 0xffff, g6, g7),
        ),
{
    let ip = IpAddress::V6(0, 0, 0, 0, 0, 0xffff, g6, g7);
    let ha = (g6 as int / 256) as u8;
    let hb = (g6 as int % 256) as u8;
    let hc = (g7 as int / 256) as u8;
    let hd = (g7 as int % 256) as u8;
    let v4t = ipv4_text(ha, hb, hc, hd);
    let s = ip_text(ip);
    assert(s == mapped_prefix() + v4t);
    lemma_dec_text_len(ha as int);
    lemma_dec_text_len(hb as int);
    lemma_dec_text_len(hc as int);
    lemma_dec_text_len(hd as int);
    assert(v4t.len() >= 7);
    assert forall|j: int| 0 <= j < 7 implies #[trigger] s[j] == mapped_prefix()[j] by {}
    assert(s[0] == 58 && s[1] == 58 && s[2] == 102 && s[3] == 102 && s[4] == 102 && s[5] == 102
        && s[6] == 58);
    assert(digits_end(s, 0, false) == 0);
    assert(read_dec_u8(s, 0) is None);
    assert(read_ipv4_at(s, 0) is None);
    assert(parse_ipv4(s) is None);
    assert(digits_end(s, 0, true) == 0);
    assert(read_hex_u16(s, 0) is None);
    let head = read_groups(s, 0, 0, 8);
    assert(head == (Seq::<u16>::empty(), 0int, false));
    assert(digits_end(s, 2, false) == 2);
    assert(read_dec_u8(s, 2) is None);
    assert(read_ipv4_at(s, 2) is None);
    assert forall|j: int| 2 <= j < 6 implies digit_ok(#[trigger] s[j], true) by {}
    lemma_digits_end_region(s, 2, 4, true);
    assert(digits_end(s, 2, true) == 6);
    assert(num_val(s, 2, 2, true) == 0);
    assert(num_val(s, 2, 3, true) == 15);
    assert(num_val(s, 2, 4, true) == 255);
    assert(num_val(s, 2, 5, true) == 4095);
    assert(num_val(s, 2, 6, true) == 65535);
    assert(read_hex_u16(s, 2) == Some((65535u16, 6int)));
    assert(read_sep_hex(s, 2, true) == Some((65535u16, 6int)));
    assert(s.subrange(7, s.len() as int) =~= v4t) by {
        assert forall|j: int| 0 <= j < v4t.len() implies s.subrange(7, s.len() as int)[j]
            == v4t[j] by {
            assert(s[7 + j] == v4t[j]);
        }
    }
    lemma_read_ipv4_of_text(s, 7, ha, hb, hc, hd);
    assert(read_sep_ipv4(s, 6, false) == Some((ha, hb, hc, hd, s.len() as int)));
    let pair = read_groups(s, 6, 1, 7);
    assert(pair == (seq![group_of(ha, hb), group_of(hc, hd)], s.len() as int, true));
    let tail = read_groups(s, 2, 0, 7);
    assert(tail == (
        seq![65535u16] + seq![group_of(ha, hb), group_of(hc, hd)],
        s.len() as int,
        true,
    ));
    assert(group_of(ha, hb) == g6) by {
        assert(g6 as int / 256 * 256 + g6 as int % 256 == g6 as int);
    }
    assert(group_of(hc, hd) == g7) by {
        assert(g7 as int / 256 * 256 + g7 as int % 256 == g7 as int);
    }
    assert(tail.0.len() == 3);
    let groups = head.0 + zero_groups(8 - head.0.len() - tail.0.len()) + tail.0;
    assert(groups =~= seq![0u16, 0, 0, 0, 0, 0xffff, g6, g7]);
    assert(parse_ipv6(s) == Some(v6_of(groups)));
}

/// Compressed colon notation over any eight groups whose elided middle run
/// is zero parses back to those groups.
#[verifier::rlimit(100)]
proof fn lemma_v6_compressed_text_parses(g: Seq<u16>, b: int, l: int, s: Seq<u8>)
    requires
        g.len() == 8,
        0 <= b,
        2 <= l,
        b + l <= 8,
        forall|j: int| b <= j < b + l ==> g[j] == 0,
        s == (groups_text(g, 0, b) + seq![58u8, 58]) + groups_text(g, b + l, 8),
    ensures
        parse_ipv4(s) is None,
        parse_ipv6(s) == Some(v6_of(g)),
{
    let gt1 = groups_text(g, 0, b);
    let gt2 = groups_text(g, b + l, 8);
    let q = gt1.len() as int;
    assert(s.len() == q + 2 + gt2.len());
    lemma_groups_text_chars(g, 0, b);
    lemma_groups_text_chars(g, b + l, 8);
    assert forall|k: int| 0 <= k < s.len() implies #[trigger] s[k] != 46 by {
        if k < q {
            assert(s[k] == gt1[k]);
        } else if k < q + 2 {
            assert(s[k] == (gt1 + seq![58u8, 58])[k]);
        } else {
            assert(s[k] == gt2[k - q - 2]);
        }
    }
    lemma_no_dots_ipv4_none(s, 0);
    assert(parse_ipv4(s) is None);
    assert(s[q] == 58 && s[q + 1] == 58) by {
        assert(s[q] == (gt1 + seq![58u8, 58])[q]);
        assert(s[q + 1] == (gt1 + seq![58u8, 58])[q + 1]);
    }
    let region1 = region_text(0, g, 0, b);
    assert(region1.len() == q);
    assert(s.subrange(0, q) =~= region1) by {
        assert forall|j: int| 0 <= j < q implies s.subrange(0, q)[j] == gt1[j] by {
            assert(s[j] == (gt1 + seq![58u8, 58])[j]);
        }
    }
    lemma_read_groups_of_text(s, g, 0, b, 0, 0, 8);
    let head = read_groups(s, 0, 0, 8);
    assert(head == (g.subrange(0, b), q, false));
    assert(b + l <= 8 && b >= 0);
    assert(head.0.len() == b && b != 8);
    let limit2 = 8 - b - 1;
    let region2 = region_text(0, g, b + l, 8);
    assert(region2.len() == gt2.len());
    assert(s.subrange(q + 2, q + 2 + region2.len() as int) =~= region2) by {
        assert forall|j: int| 0 <= j < gt2.len() implies s.subrange(
            q + 2,
            q + 2 + region2.len() as int,
        )[j] == gt2[j] by {
            assert(s[q + 2 + j] == gt2[j]);
        }
    }
    lemma_read_groups_of_text(s, g, b + l, 8, q + 2, 0, limit2);
    let tail = read_groups(s, q + 2, 0, limit2);
    assert(tail == (g.subrange(b + l, 8), s.len() as int, false));
    let groups = head.0 + zero_groups(8 - head.0.len() - tail.0.len()) + tail.0;
    assert(8 - head.0.len() - tail.0.len() == l);
    assert(groups =~= g);
    assert(parse_ipv6(s) == Some(v6_of(groups)));
    assert(v6_of(groups) == v6_of(g));
}

/// The canonical text of an IPv6 address whose longest zero run is
/// compressed parses back to it.
proof fn lemma_v6_compressed_round_trip(
    g0: u16,
    g1: u16,
    g2: u16,
    g3: u16,
    g4: u16,
    g5: u16,
    g6: u16,
    g7: u16,
)
    requires
        !(g0 == 0 && g1 == 0 && g2 == 0 && g3 == 0 && g4 == 0 && g5 == 0xffff),
        zero_run_len(
            seq![g0, g1, g2, g3, g4, g5, g6, g7],
            best_zero_run(seq![g0, g1, g2, g3, g4, g5, g6, g7], 0),
        ) >= 2,
    ensures
        parse_ipv4(ip_text(IpAddress::V6(g0, g1, g2, g3, g4, g5, g6, g7))) is None,
        parse_ipv6(ip_text(IpAddress::V6(g0, g1, g2, g3, g4, g5, g6, g7))) == Some(
            IpAddress::V6(g0, g1, g2, g3, g4, g5, g6, g7),
        ),
        parse_ip(ip_text(IpAddress::V6(g0, g1, g2, g3, g4, g5, g6, g7))) == Some(
            IpAddress::V6(g0, g1, g2, g3, g4, g5, g6, g7),
        ),
{
    let ip = IpAddress::V6(g0, g1, g2, g3, g4, g5, g6, g7);
    let g = seq![g0, g1, g2, g3, g4, g5, g6, g7];
    let s = ip_text(ip);
    let b = best_zero_run(g, 0);
    let l = zero_run_len(g, b);
    lemma_best_zero_run_bound(g, 0);
    lemma_zero_run_len_bound(g, b);
    lemma_zero_run_zeros(g, b);
    assert(s == (groups_text(g, 0, b) + seq![58u8, 58]) + groups_text(g, b + l, 8));
    lemma_v6_compressed_text_parses(g, b, l, s);
    assert(v6_of(g) == ip);
}

/// The canonical text of an IPv6 address with no zero run to compress
/// parses back to it.
#[verifier::rlimit(100)]
proof fn lemma_v6_uncompressed_round_trip(
    g0: u16,
    g1: u16,
    g2: u16,
    g3: u16,
    g4: u16,
    g5: u16,
    g6: u16,
    g7: u16,
)
    requires
        !(g0 == 0 && g1 == 0 && g2 == 0 && g3 == 0 && g4 == 0 && g5 == 0xffff),
        zero_run_len(
            seq![g0, g1, g2, g3, g4, g5, g6, g7],
            best_zero_run(seq![g0, g1, g2, g3, g4, g5, g6, g7], 0),
        ) < 2,
    ensures
        parse_ipv4(ip_text(IpAddress::V6(g0, g1, g2, g3, g4, g5, g6, g7))) is None,
        parse_ipv6(ip_text(IpAddress::V6(g0, g1, g2, g3, g4, g5, g6, g7))) == Some(
            IpAddress::V6(g0, g1, g2, g3, g4, g5, g6, g7),
        ),
        parse_ip(ip_text(IpAddress::V6(g0, g1, g2, g3, g4, g5, g6, g7))) == Some(
            IpAddress::V6(g0, g1, g2, g3, g4, g5, g6, g7),
        ),
{
    let ip = IpAddress::V6(g0, g1, g2, g3, g4, g5, g6, g7);
    let g = seq![g0, g1, g2, g3, g4, g5, g6, g7];
    let s = ip_text(ip);
    assert(s == groups_text(g, 0, 8));
    lemma_groups_text_chars(g, 0, 8);
    lemma_no_dots_ipv4_none(s, 0);
    assert(parse_ipv4(s) is None);
    let region = region_text(0, g, 0, 8);
    assert(region == s);
    assert(s.subrange(0, s.len() as int) =~= s);
    lemma_read_groups_of_text(s, g, 0, 8, 0, 0, 8);
    let head = read_groups(s, 0, 0, 8);
    assert(head == (g.subrange(0, 8), s.len() as int, false));
    assert(g.subrange(0, 8) =~= g);
    assert(parse_ipv6(s) == Some(v6_of(g)));
    assert(v6_of(g) == ip);
}

/// An input that is not IPv4 text parses as whatever its IPv6 reading gives.
proof fn lemma_parse_ip_v6_case(s: Seq<u8>, ip: IpAddress)
    requires
        parse_ipv4(s) is None,
        parse_ipv6(s) == Some(ip),
    ensures
        parse_ip(s) == Some(ip),
{
}

/// The round-trip law: the canonical text of any address parses back to
/// exactly that address. The response body of the root endpoint is therefore
/// always valid IP-address text.
#[verifier::rlimit(100)]
pub proof fn lemma_ip_text_round_trip(ip: IpAddress)
    ensures
        parse_ip(ip_text(ip)) == Some(ip),
{
    match ip {
        IpAddress::V4(a, b, c, d) => {
            lemma_parse_ipv4_of_text(a, b, c, d);
        },
        IpAddress::V6(g0, g1, g2, g3, g4, g5, g6, g7) => {
            if g0 == 0 && g1 == 0 && g2 == 0 && g3 == 0 && g4 == 0 && g5 == 0xffff {
                lemma_v6_mapped_round_trip(g6, g7);
                lemma_parse_ip_v6_case(ip_text(ip), ip);
            } else {
                let g = seq![g0, g1, g2, g3, g4, g5, g6, g7];
                if zero_run_len(g, best_zero_run(g, 0)) >= 2 {
                    lemma_v6_compressed_round_trip(g0, g1, g2, g3, g4, g5, g6, g7);
                } else {
                    lemma_v6_uncompressed_round_trip(g0, g1, g2, g3, g4, g5, g6, g7);
                }
            }
        },
    }
}

/// The body served for the root endpoint is always the text of a valid
/// address: parsing it back yields exactly the resolved address, whatever
/// the headers and fallback were.
pub proof fn lemma_resolved_body_is_valid_ip_text(
    hs: Seq<(Seq<u8>, Seq<u8>)>,
    fallback: IpAddress,
)
    ensures
        parse_ip(ip_text(spec_resolve(hs, fallback))) == Some(spec_resolve(hs, fallback)),
{
    lemma_ip_text_round_trip(spec_resolve(hs, fallback));
}

} // verus!
