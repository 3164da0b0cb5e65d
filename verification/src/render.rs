//! Rendering a resolved address back to its canonical text form.
//!
//! IPv4 prints as the dotted decimal quad. IPv6 prints in the usual
//! canonical form: lowercase hexadecimal groups without leading zeros, the
//! leftmost longest run of two or more zero groups compressed to `::`, and
//! IPv4-mapped addresses printed as `::ffff:` followed by the dotted quad.

use vstd::prelude::*;

use crate::ip::IpAddress;

verus! {

/// Decimal text of `n`, most significant digit first, no leading zeros.
pub open spec fn dec_text(n: int) -> Seq<u8>
    decreases n,
{
    if n < 10 {
        seq![(48 + n) as u8]
    } else {
        dec_text(n / 10) + seq![(48 + n % 10) as u8]
    }
}

/// A lowercase hexadecimal digit byte.
pub open spec fn hex_digit(d: int) -> u8 {
    if d < 10 {
        (48 + d) as u8
    } else {
        (87 + d) as u8
    }
}

/// Lowercase hexadecimal text of `n`, no leading zeros.
pub open spec fn hex_text(n: int) -> Seq<u8>
    decreases n,
{
    if n < 16 {
        seq![hex_digit(n)]
    } else {
        hex_text(n / 16) + seq![hex_digit(n % 16)]
    }
}

/// Dotted-quad text of an IPv4 address.
pub open spec fn ipv4_text(a: u8, b: u8, c: u8, d: u8) -> Seq<u8> {
    dec_text(a as int) + seq![46u8] + dec_text(b as int) + seq![46u8] + dec_text(c as int)
        + seq![46u8] + dec_text(d as int)
}

/// Length of the run of zero groups starting at `i`.
pub open spec fn zero_run_len(g: Seq<u16>, i: int) -> int
    decreases g.len() - i,
{
    if i < 0 || i >= g.len() || g[i] != 0 {
        0
    } else {
        1 + zero_run_len(g, i + 1)
    }
}

/// Start of the leftmost longest zero run at or after `i` (`g.len()` when
/// every candidate run is empty).
pub open spec fn best_zero_run(g: Seq<u16>, i: int) -> int
    decreases g.len() - i,
{
    if i >= g.len() {
        i
    } else {
        let rest = best_zero_run(g, i + 1);
        if zero_run_len(g, i) >= zero_run_len(g, rest) {
            i
        } else {
            rest
        }
    }
}

/// The groups `g[lo..hi]` in hexadecimal, joined with `:`.
pub open spec fn groups_text(g: Seq<u16>, lo: int, hi: int) -> Seq<u8>
    decreases hi - lo,
{
    if lo >= hi {
        Seq::<u8>::empty()
    } else if lo + 1 == hi {
        hex_text(g[lo] as int)
    } else {
        hex_text(g[lo] as int) + seq![58u8] + groups_text(g, lo + 1, hi)
    }
}

/// The text `::ffff:` that opens an IPv4-mapped address.
pub open spec fn mapped_prefix() -> Seq<u8> {
    seq![58u8, 58, 102, 102, 102, 102, 58]
}

/// Canonical text of an address.
pub open spec fn ip_text(ip: IpAddress) -> Seq<u8> {
    match ip {
        IpAddress::V4(a, b, c, d) => ipv4_text(a, b, c, d),
        IpAddress::V6(g0, g1, g2, g3, g4, g5, g6, g7) => {
            let g = seq![g0, g1, g2, g3, g4, g5, g6, g7];
            if g0 == 0 && g1 == 0 && g2 == 0 && g3 == 0 && g4 == 0 && g5 == 0xffff {
                mapped_prefix() + ipv4_text(
                    (g6 as int / 256) as u8,
                    (g6 as int % 256) as u8,
                    (g7 as int / 256) as u8,
                    (g7 as int % 256) as u8,
                )
            } else {
                let b = best_zero_run(g, 0);
                let l = zero_run_len(g, b);
                if l >= 2 {
                    groups_text(g, 0, b) + seq![58u8, 58] + groups_text(g, b + l, 8)
                } else {
                    groups_text(g, 0, 8)
                }
            }
        },
    }
}

/// A zero run stays within the sequence.
pub proof fn lemma_zero_run_len_bound(g: Seq<u16>, i: int)
    requires
        0 <= i <= g.len(),
    ensures
        0 <= zero_run_len(g, i) <= g.len() - i,
    decreases g.len() - i,
{
    if i < g.len() && g[i] == 0 {
        lemma_zero_run_len_bound(g, i + 1);
    }
}

/// Decimal text is never empty.
pub proof fn lemma_dec_text_nonempty(n: int)
    ensures
        dec_text(n).len() >= 1,
{
    if n < 10 {
    } else {
        assert(dec_text(n).len() == dec_text(n / 10).len() + 1);
    }
}

/// Hexadecimal text is never empty.
pub proof fn lemma_hex_text_nonempty(n: int)
    ensures
        hex_text(n).len() >= 1,
{
    if n < 16 {
    } else {
        assert(hex_text(n).len() == hex_text(n / 16).len() + 1);
    }
}

/// The rendered form of an address is never the empty string.
pub proof fn lemma_ip_text_nonempty(ip: IpAddress)
    ensures
        ip_text(ip).len() >= 1,
{
    match ip {
        IpAddress::V4(a, b, c, d) => {
            lemma_dec_text_nonempty(a as int);
        },
        IpAddress::V6(g0, g1, g2, g3, g4, g5, g6, g7) => {
            let g = seq![g0, g1, g2, g3, g4, g5, g6, g7];
            if g0 == 0 && g1 == 0 && g2 == 0 && g3 == 0 && g4 == 0 && g5 == 0xffff {
            } else {
                let b = best_zero_run(g, 0);
                let l = zero_run_len(g, b);
                if l >= 2 {
                } else {
                    assert(groups_text(g, 0, 8).len() >= 1) by {
                        lemma_hex_text_nonempty(g[0] as int);
                    }
                }
            }
        },
    }
}

/// Appends the decimal text of `n`.
pub fn push_dec(out: &mut Vec<u8>, n: u8)
    ensures
        final(out)@ == old(out)@ + dec_text(n as int),
    decreases n,
{
    if n < 10 {
        out.push(48 + n);
        assert(out@ =~= old(out)@ + dec_text(n as int));
    } else {
        push_dec(out, n / 10);
        out.push(48 + n % 10);
        assert(out@ =~= old(out)@ + dec_text(n as int));
    }
}

/// Appends the lowercase hexadecimal text of `n`.
pub fn push_hex(out: &mut Vec<u8>, n: u16)
    ensures
        final(out)@ == old(out)@ + hex_text(n as int),
    decreases n,
{
    if n < 16 {
        let d: u8 = if n < 10 {
            48 + (n as u8)
        } else {
            87 + (n as u8)
        };
        out.push(d);
        assert(out@ =~= old(out)@ + hex_text(n as int));
    } else {
        push_hex(out, n / 16);
        let m: u16 = n % 16;
        let d: u8 = if m < 10 {
            48 + (m as u8)
        } else {
            87 + (m as u8)
        };
        out.push(d);
        assert(out@ =~= old(out)@ + hex_text(n as int));
    }
}

/// Appends the dotted-quad text of an IPv4 address.
pub fn push_ipv4(out: &mut Vec<u8>, a: u8, b: u8, c: u8, d: u8)
    ensures
        final(out)@ == old(out)@ + ipv4_text(a, b, c, d),
{
    push_dec(out, a);
    out.push(46);
    push_dec(out, b);
    out.push(46);
    push_dec(out, c);
    out.push(46);
    push_dec(out, d);
    assert(out@ =~= old(out)@ + ipv4_text(a, b, c, d));
}

/// Length of the run of zero groups starting at `i`.
pub fn zero_run_len_exec(g: &Vec<u16>, i: usize) -> (r: usize)
    requires
        i <= g.len(),
    ensures
        r as int == zero_run_len(g@, i as int),
        i <= r + i <= g.len(),
{
    let mut j: usize = i;
    while j < g.len() && g[j] == 0
        invariant
            i <= j <= g.len(),
            zero_run_len(g@, i as int) == (j - i) + zero_run_len(g@, j as int),
        decreases g.len() - j,
    {
        j = j + 1;
    }
    proof {
        lemma_zero_run_len_bound(g@, j as int);
    }
    j - i
}

/// Start of the leftmost longest zero run.
pub fn best_zero_run_exec(g: &Vec<u16>) -> (r: usize)
    ensures
        r as int == best_zero_run(g@, 0),
        r <= g.len(),
{
    let mut i: usize = g.len();
    let mut best: usize = g.len();
    while i > 0
        invariant
            0 <= i <= g.len(),
            best <= g.len(),
            best as int == best_zero_run(g@, i as int),
        decreases i,
    {
        i = i - 1;
        let rl_i = zero_run_len_exec(g, i);
        let rl_b = zero_run_len_exec(g, best);
        if rl_i >= rl_b {
            best = i;
        }
    }
    best
}

/// Appends `g[lo..hi]` in hexadecimal, joined with `:`.
pub fn push_groups(out: &mut Vec<u8>, g: &Vec<u16>, lo: usize, hi: usize)
    requires
        lo <= hi <= g.len(),
    ensures
        final(out)@ == old(out)@ + groups_text(g@, lo as int, hi as int),
    decreases hi - lo,
{
    if lo >= hi {
        assert(out@ =~= old(out)@ + groups_text(g@, lo as int, hi as int));
    } else if lo + 1 == hi {
        push_hex(out, g[lo]);
    } else {
        push_hex(out, g[lo]);
        out.push(58);
        push_groups(out, g, lo + 1, hi);
        assert(out@ =~= old(out)@ + groups_text(g@, lo as int, hi as int));
    }
}

/// Canonical text of an address, as bytes.
pub fn ip_to_text(ip: &IpAddress) -> (r: Vec<u8>)
    ensures
        r@ == ip_text(*ip),
{
    match ip {
        IpAddress::V4(a, b, c, d) => {
            let mut out: Vec<u8> = Vec::new();
            push_ipv4(&mut out, *a, *b, *c, *d);
            assert(out@ =~= ip_text(*ip));
            out
        },
        IpAddress::V6(g0, g1, g2, g3, g4, g5, g6, g7) => {
            let mut out: Vec<u8> = Vec::new();
            if *g0 == 0 && *g1 == 0 && *g2 == 0 && *g3 == 0 && *g4 == 0 && *g5 == 0xffff {
                out.push(58);
                out.push(58);
                out.push(102);
                out.push(102);
                out.push(102);
                out.push(102);
                out.push(58);
                assert(out@ =~= mapped_prefix());
                push_ipv4(
                    &mut out,
                    (*g6 / 256) as u8,
                    (*g6 % 256) as u8,
                    (*g7 / 256) as u8,
                    (*g7 % 256) as u8,
                );
                assert(out@ =~= ip_text(*ip));
                return out;
            }
            let mut g: Vec<u16> = Vec::new();
            g.push(*g0);
            g.push(*g1);
            g.push(*g2);
            g.push(*g3);
            g.push(*g4);
            g.push(*g5);
            g.push(*g6);
            g.push(*g7);
            assert(g@ =~= seq![*g0, *g1, *g2, *g3, *g4, *g5, *g6, *g7]);
            let b = best_zero_run_exec(&g);
            let l = zero_run_len_exec(&g, b);
            if l >= 2 {
                push_groups(&mut out, &g, 0, b);
                out.push(58);
                out.push(58);
                push_groups(&mut out, &g, b + l, 8);
                assert(out@ =~= ip_text(*ip));
            } else {
                push_groups(&mut out, &g, 0, 8);
                assert(out@ =~= ip_text(*ip));
            }
            out
        },
    }
}

} // verus!
