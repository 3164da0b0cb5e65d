//! The client-IP resolver: an ordered, first-match-wins chain over the
//! recognized proxy headers, with the transport peer address as the final
//! fallback.
//!
//! Design note: the chain trusts any client-supplied header without checking
//! that the peer is a trusted reverse proxy. That trust-everything policy is
//! deliberate and is a known weakness of the service; callers that need a
//! trustworthy address must put a vetting proxy in front.

use vstd::prelude::*;

use crate::bytes::first_at;
use crate::bytes::lemma_first_at;
use crate::bytes::take_until;
use crate::bytes::trim;
use crate::bytes::find_byte;
use crate::bytes::subvec;
use crate::bytes::trim_bytes;
use crate::ip::IpAddress;
use crate::parse::parse_ip;
use crate::parse::parse_ip_bytes;
use crate::render::ip_text;
use crate::render::ip_to_text;

verus! {

/// One header as handed over by the transport layer: a name and a raw value.
pub struct HeaderEntry {
    pub name: Vec<u8>,
    pub value: Vec<u8>,
}

impl View for HeaderEntry {
    type V = (Seq<u8>, Seq<u8>);

    open spec fn view(&self) -> (Seq<u8>, Seq<u8>) {
        (self.name@, self.value@)
    }
}

/// The request's header collection, in arrival order. Lookup by name is
/// case-insensitive, as HTTP requires.
pub struct Headers {
    pub entries: Vec<HeaderEntry>,
}

impl View for Headers {
    type V = Seq<(Seq<u8>, Seq<u8>)>;

    open spec fn view(&self) -> Seq<(Seq<u8>, Seq<u8>)> {
        self.entries@.map_values(|e: HeaderEntry| e@)
    }
}

/// The byte with ASCII letters folded to lower case.
pub open spec fn ascii_lower(b: u8) -> u8 {
    if 65 <= b && b <= 90 {
        (b + 32) as u8
    } else {
        b
    }
}

/// Case-insensitive equality of header names.
pub open spec fn name_eq(a: Seq<u8>, b: Seq<u8>) -> bool {
    a.len() == b.len() && (forall|i: int| 0 <= i < a.len() ==> ascii_lower(a[i]) == ascii_lower(
        b[i],
    ))
}

/// The value of the first header whose name matches, if any.
pub open spec fn lookup(hs: Seq<(Seq<u8>, Seq<u8>)>, name: Seq<u8>) -> Option<Seq<u8>>
    decreases hs.len(),
{
    if hs.len() == 0 {
        None
    } else if name_eq(hs[0].0, name) {
        Some(hs[0].1)
    } else {
        lookup(hs.drop_first(), name)
    }
}

/// The name `x-forwarded-for`.
pub open spec fn xff_name() -> Seq<u8> {
    seq![120u8, 45, 102, 111, 114, 119, 97, 114, 100, 101, 100, 45, 102, 111, 114]
}

/// The name `x-real-ip`.
pub open spec fn xri_name() -> Seq<u8> {
    seq![120u8, 45, 114, 101, 97, 108, 45, 105, 112]
}

/// The name `x-client-ip`.
pub open spec fn xci_name() -> Seq<u8> {
    seq![120u8, 45, 99, 108, 105, 101, 110, 116, 45, 105, 112]
}

/// The name `forwarded`.
pub open spec fn fwd_name() -> Seq<u8> {
    seq![102u8, 111, 114, 119, 97, 114, 100, 101, 100]
}

/// The candidate drawn from `x-forwarded-for`: the first comma-separated
/// entry, trimmed, parsed as an IP address.
pub open spec fn xff_candidate(v: Seq<u8>) -> Option<IpAddress> {
    parse_ip(trim(take_until(v, 44)))
}

/// The candidate drawn from `x-real-ip` or `x-client-ip`: the whole value,
/// trimmed, parsed as an IP address.
pub open spec fn single_candidate(v: Seq<u8>) -> Option<IpAddress> {
    parse_ip(trim(v))
}

/// One pair of surrounding double quotes removed, when both are present.
pub open spec fn strip_quotes(s: Seq<u8>) -> Seq<u8> {
    if s.len() >= 2 && s[0] == 34 && s[s.len() - 1] == 34 {
        s.subrange(1, s.len() - 1)
    } else {
        s
    }
}

/// One leading `[` and one trailing `]` removed, each when present.
pub open spec fn strip_brackets(s: Seq<u8>) -> Seq<u8> {
    let a = if s.len() >= 1 && s[0] == 91 {
        s.drop_first()
    } else {
        s
    };
    if a.len() >= 1 && a[a.len() - 1] == 93 {
        a.drop_last()
    } else {
        a
    }
}

/// The prefix `for=` of a `forwarded` parameter.
pub open spec fn for_prefix() -> Seq<u8> {
    seq![102u8, 111, 114, 61]
}

/// The candidate drawn from one semicolon-delimited segment of a
/// `forwarded` header: the segment is trimmed, must begin with the literal
/// `for=`, and the remainder is trimmed and unquoted. A token that opens
/// with `[` is bracketed IPv6 notation: the address is what stands before
/// the closing `]`, and anything after it (a port) is dropped. Any other
/// token is cut before the first colon (separating a trailing port),
/// trimmed again, stripped of brackets, and parsed.
pub open spec fn forwarded_candidate(seg: Seq<u8>) -> Option<IpAddress> {
    let t = trim(seg);
    if t.len() >= 4 && t.subrange(0, 4) == for_prefix() {
        let c = trim(t.skip(4));
        let q = strip_quotes(c);
        let token = if q.len() >= 1 && q[0] == 91 {
            trim(take_until(q.skip(1), 93))
        } else {
            strip_brackets(trim(take_until(q, 58)))
        };
        parse_ip(token)
    } else {
        None
    }
}

/// Scans the semicolon-delimited segments of a `forwarded` header in order
/// and returns the first candidate that parses; later segments are not
/// consulted once one parses.
pub open spec fn forwarded_scan(v: Seq<u8>) -> Option<IpAddress>
    decreases v.len(),
    via forwarded_scan_decreases
{
    {
        let cut = first_at(v, 59);
        match forwarded_candidate(v.take(cut)) {
            Some(ip) => Some(ip),
            None => if cut >= v.len() {
                None
            } else {
                forwarded_scan(v.skip(cut + 1))
            },
        }
    }
}

#[via_fn]
proof fn forwarded_scan_decreases(v: Seq<u8>) {
    lemma_first_at(v, 59);
}

/// The resolved client address: the first header-derived candidate in the
/// fixed order `x-forwarded-for`, `x-real-ip`, `x-client-ip`, `forwarded`;
/// the transport fallback when no header yields a parseable address. A
/// header that is absent, or present but unparseable, is passed over.
pub open spec fn spec_resolve(hs: Seq<(Seq<u8>, Seq<u8>)>, fallback: IpAddress) -> IpAddress {
    let xff = match lookup(hs, xff_name()) {
        Some(v) => xff_candidate(v),
        None => None,
    };
    match xff {
        Some(ip) => ip,
        None => {
            let xri = match lookup(hs, xri_name()) {
                Some(v) => single_candidate(v),
                None => None,
            };
            match xri {
                Some(ip) => ip,
                None => {
                    let xci = match lookup(hs, xci_name()) {
                        Some(v) => single_candidate(v),
                        None => None,
                    };
                    match xci {
                        Some(ip) => ip,
                        None => {
                            let fwd = match lookup(hs, fwd_name()) {
                                Some(v) => forwarded_scan(v),
                                None => None,
                            };
                            match fwd {
                                Some(ip) => ip,
                                None => fallback,
                            }
                        },
                    }
                },
            }
        },
    }
}

impl Headers {
    /// An empty collection.
    pub fn new() -> (r: Headers)
        ensures
            r@ == Seq::<(Seq<u8>, Seq<u8>)>::empty(),
    {
        let r = Headers { entries: Vec::new() };
        assert(r@ =~= Seq::<(Seq<u8>, Seq<u8>)>::empty());
        r
    }

    /// Appends one header.
    pub fn insert(&mut self, name: Vec<u8>, value: Vec<u8>)
        ensures
            final(self)@ == old(self)@.push((name@, value@)),
    {
        let ghost n = name@;
        let ghost v = value@;
        self.entries.push(HeaderEntry { name, value });
        assert(self@ =~= old(self)@.push((n, v)));
    }

    /// The value of the first header whose name matches, case-insensitively.
    pub fn get<'a>(&'a self, name: &Vec<u8>) -> (r: Option<&'a Vec<u8>>)
        ensures
            (match r {
                Some(v) => lookup(self@, name@) == Some(v@),
                None => lookup(self@, name@) is None,
            }),
    {
        let mut i: usize = 0;
        assert(self@.skip(0) =~= self@);
        while i < self.entries.len()
            invariant
                0 <= i <= self.entries.len(),
                lookup(self@, name@) == lookup(self@.skip(i as int), name@),
            decreases self.entries.len() - i,
        {
            if name_eq_exec(&self.entries[i].name, name) {
                assert(self@.skip(i as int)[0] == self@[i as int]);
                return Some(&self.entries[i].value);
            }
            assert(self@.skip(i as int).drop_first() =~= self@.skip(i + 1 as int));
            assert(self@.skip(i as int)[0] == self@[i as int]);
            i = i + 1;
        }
        assert(self@.skip(i as int) =~= Seq::<(Seq<u8>, Seq<u8>)>::empty());
        None
    }
}

/// Case-insensitive byte-string equality.
pub fn name_eq_exec(a: &Vec<u8>, b: &Vec<u8>) -> (r: bool)
    ensures
        r == name_eq(a@, b@),
{
    if a.len() != b.len() {
        return false;
    }
    let mut i: usize = 0;
    while i < a.len()
        invariant
            0 <= i <= a.len(),
            a.len() == b.len(),
            forall|j: int| 0 <= j < i ==> ascii_lower(a@[j]) == ascii_lower(b@[j]),
        decreases a.len() - i,
    {
        let x = a[i];
        let y = b[i];
        let xl: u8 = if 65 <= x && x <= 90 {
            x + 32
        } else {
            x
        };
        let yl: u8 = if 65 <= y && y <= 90 {
            y + 32
        } else {
            y
        };
        if xl != yl {
            return false;
        }
        i = i + 1;
    }
    true
}

/// The bytes of `x-forwarded-for`.
pub fn xff_name_bytes() -> (r: Vec<u8>)
    ensures
        r@ == xff_name(),
{
    let r: Vec<u8> = vec![120u8, 45, 102, 111, 114, 119, 97, 114, 100, 101, 100, 45, 102, 111, 114];
    assert(r@ =~= xff_name());
    r
}

/// The bytes of `x-real-ip`.
pub fn xri_name_bytes() -> (r: Vec<u8>)
    ensures
        r@ == xri_name(),
{
    let r: Vec<u8> = vec![120u8, 45, 114, 101, 97, 108, 45, 105, 112];
    assert(r@ =~= xri_name());
    r
}

/// The bytes of `x-client-ip`.
pub fn xci_name_bytes() -> (r: Vec<u8>)
    ensures
        r@ == xci_name(),
{
    let r: Vec<u8> = vec![120u8, 45, 99, 108, 105, 101, 110, 116, 45, 105, 112];
    assert(r@ =~= xci_name());
    r
}

/// The bytes of `forwarded`.
pub fn fwd_name_bytes() -> (r: Vec<u8>)
    ensures
        r@ == fwd_name(),
{
    let r: Vec<u8> = vec![102u8, 111, 114, 119, 97, 114, 100, 101, 100];
    assert(r@ =~= fwd_name());
    r
}

/// The candidate drawn from `x-forwarded-for`.
pub fn xff_candidate_exec(v: &Vec<u8>) -> (r: Option<IpAddress>)
    ensures
        r == xff_candidate(v@),
{
    let cut = find_byte(v, 44);
    let first = subvec(v, 0, cut);
    assert(first@ =~= take_until(v@, 44));
    let t = trim_bytes(&first);
    parse_ip_bytes(&t)
}

/// The candidate drawn from `x-real-ip` or `x-client-ip`.
pub fn single_candidate_exec(v: &Vec<u8>) -> (r: Option<IpAddress>)
    ensures
        r == single_candidate(v@),
{
    let t = trim_bytes(v);
    parse_ip_bytes(&t)
}

/// One pair of surrounding double quotes removed, when both are present.
pub fn strip_quotes_exec(s: &Vec<u8>) -> (r: Vec<u8>)
    ensures
        r@ == strip_quotes(s@),
{
    if s.len() >= 2 && s[0] == 34 && s[s.len() - 1] == 34 {
        subvec(s, 1, s.len() - 1)
    } else {
        subvec(s, 0, s.len())
    }
}

/// One leading `[` and one trailing `]` removed, each when present.
pub fn strip_brackets_exec(s: &Vec<u8>) -> (r: Vec<u8>)
    ensures
        r@ == strip_brackets(s@),
{
    let a = if s.len() >= 1 && s[0] == 91 {
        let t = subvec(s, 1, s.len());
        assert(t@ =~= s@.drop_first());
        t
    } else {
        subvec(s, 0, s.len())
    };
    if a.len() >= 1 && a[a.len() - 1] == 93 {
        let t = subvec(&a, 0, a.len() - 1);
        assert(t@ =~= a@.drop_last());
        t
    } else {
        a
    }
}

/// The candidate drawn from one segment of a `forwarded` header.
pub fn forwarded_candidate_exec(seg: &Vec<u8>) -> (r: Option<IpAddress>)
    ensures
        r == forwarded_candidate(seg@),
{
    let t = trim_bytes(seg);
    if t.len() >= 4 && t[0] == 102 && t[1] == 111 && t[2] == 114 && t[3] == 61 {
        assert(t@.subrange(0, 4) =~= for_prefix());
        let rest = subvec(&t, 4, t.len());
        assert(rest@ =~= trim(seg@).skip(4));
        let c = trim_bytes(&rest);
        let q = strip_quotes_exec(&c);
        if q.len() >= 1 && q[0] == 91 {
            let inner = subvec(&q, 1, q.len());
            assert(inner@ =~= q@.skip(1));
            let cut = find_byte(&inner, 93);
            let u0 = subvec(&inner, 0, cut);
            assert(u0@ =~= take_until(inner@, 93));
            let u = trim_bytes(&u0);
            parse_ip_bytes(&u)
        } else {
            let cut = find_byte(&q, 58);
            let u0 = subvec(&q, 0, cut);
            assert(u0@ =~= take_until(q@, 58));
            let u = trim_bytes(&u0);
            let w = strip_brackets_exec(&u);
            parse_ip_bytes(&w)
        }
    } else {
        proof {
            let tt = trim(seg@);
            if tt.len() >= 4 && tt.subrange(0, 4) == for_prefix() {
                assert(tt[0] == tt.subrange(0, 4)[0]);
                assert(tt[1] == tt.subrange(0, 4)[1]);
                assert(tt[2] == tt.subrange(0, 4)[2]);
                assert(tt[3] == tt.subrange(0, 4)[3]);
                assert(false);
            }
        }
        None
    }
}

/// Scans a `forwarded` header value for the first parseable `for=` segment.
#[verifier::rlimit(60)]
pub fn forwarded_scan_exec(v: &Vec<u8>) -> (r: Option<IpAddress>)
    ensures
        r == forwarded_scan(v@),
{
    let mut pos: usize = 0;
    assert(v@.skip(0) =~= v@);
    loop
        invariant
            0 <= pos <= v.len(),
            forwarded_scan(v@) == forwarded_scan(v@.skip(pos as int)),
        decreases v.len() - pos,
    {
        let rest = subvec(v, pos, v.len());
        assert(rest@ =~= v@.skip(pos as int));
        let cut = find_byte(&rest, 59);
        let seg = subvec(&rest, 0, cut);
        assert(seg@ =~= rest@.take(first_at(rest@, 59)));
        let cand = forwarded_candidate_exec(&seg);
        if let Some(ip) = cand {
            return Some(ip);
        }
        if cut >= rest.len() {
            return None;
        }
        assert(rest@.skip(cut + 1 as int) =~= v@.skip(pos + cut + 1 as int));
        pos = pos + cut + 1;
    }
}

/// Resolves the client address from the headers, falling back to the
/// transport peer address; total, pure, first match wins.
pub fn resolve(headers: &Headers, fallback: IpAddress) -> (r: IpAddress)
    ensures
        r == spec_resolve(headers@, fallback),
{
    let xff = xff_name_bytes();
    if let Some(v) = headers.get(&xff) {
        if let Some(ip) = xff_candidate_exec(v) {
            return ip;
        }
    }
    let xri = xri_name_bytes();
    if let Some(v) = headers.get(&xri) {
        if let Some(ip) = single_candidate_exec(v) {
            return ip;
        }
    }
    let xci = xci_name_bytes();
    if let Some(v) = headers.get(&xci) {
        if let Some(ip) = single_candidate_exec(v) {
            return ip;
        }
    }
    let fwd = fwd_name_bytes();
    if let Some(v) = headers.get(&fwd) {
        if let Some(ip) = forwarded_scan_exec(v) {
            return ip;
        }
    }
    fallback
}

/// The plain-text response body for the root endpoint: the canonical text
/// of the resolved client address.
pub fn client_ip_body(headers: &Headers, fallback: IpAddress) -> (r: Vec<u8>)
    ensures
        r@ == ip_text(spec_resolve(headers@, fallback)),
        r@.len() >= 1,
{
    let ip = resolve(headers, fallback);
    proof {
        crate::render::lemma_ip_text_nonempty(ip);
    }
    ip_to_text(&ip)
}

/// The fixed body of the liveness endpoint; independent of the resolver and
/// of every request input.
pub fn livez_body() -> (r: &'static str)
    ensures
        r@ == "Healthy"@,
{
    "Healthy"
}

/// When none of the four recognized headers is present, resolution returns
/// the transport fallback address exactly.
pub proof fn lemma_no_headers_gives_fallback(hs: Seq<(Seq<u8>, Seq<u8>)>, fallback: IpAddress)
    requires
        lookup(hs, xff_name()) is None,
        lookup(hs, xri_name()) is None,
        lookup(hs, xci_name()) is None,
        lookup(hs, fwd_name()) is None,
    ensures
        spec_resolve(hs, fallback) == fallback,
{
}

/// When every recognized header that is present yields no parseable
/// candidate, resolution returns the transport fallback address exactly.
pub proof fn lemma_unparseable_headers_give_fallback(
    hs: Seq<(Seq<u8>, Seq<u8>)>,
    fallback: IpAddress,
)
    requires
        (match lookup(hs, xff_name()) {
            Some(v) => xff_candidate(v) is None,
            None => true,
        }),
        (match lookup(hs, xri_name()) {
            Some(v) => single_candidate(v) is None,
            None => true,
        }),
        (match lookup(hs, xci_name()) {
            Some(v) => single_candidate(v) is None,
            None => true,
        }),
        (match lookup(hs, fwd_name()) {
            Some(v) => forwarded_scan(v) is None,
            None => true,
        }),
    ensures
        spec_resolve(hs, fallback) == fallback,
{
}

/// A parseable first `x-forwarded-for` entry wins outright, whatever the
/// other headers hold.
pub proof fn lemma_forwarded_for_first_wins(
    hs: Seq<(Seq<u8>, Seq<u8>)>,
    fallback: IpAddress,
    v: Seq<u8>,
    ip: IpAddress,
)
    requires
        lookup(hs, xff_name()) == Some(v),
        xff_candidate(v) == Some(ip),
    ensures
        spec_resolve(hs, fallback) == ip,
{
}

/// When `x-forwarded-for` is absent or yields no candidate, a parseable
/// `x-real-ip` value decides the result.
pub proof fn lemma_real_ip_wins(
    hs: Seq<(Seq<u8>, Seq<u8>)>,
    fallback: IpAddress,
    v: Seq<u8>,
    ip: IpAddress,
)
    requires
        (match lookup(hs, xff_name()) {
            Some(w) => xff_candidate(w) is None,
            None => true,
        }),
        lookup(hs, xri_name()) == Some(v),
        single_candidate(v) == Some(ip),
    ensures
        spec_resolve(hs, fallback) == ip,
{
}

/// When `x-forwarded-for` and `x-real-ip` are absent or yield no candidate,
/// a parseable `x-client-ip` value decides the result.
pub proof fn lemma_client_ip_wins(
    hs: Seq<(Seq<u8>, Seq<u8>)>,
    fallback: IpAddress,
    v: Seq<u8>,
    ip: IpAddress,
)
    requires
        (match lookup(hs, xff_name()) {
            Some(w) => xff_candidate(w) is None,
            None => true,
        }),
        (match lookup(hs, xri_name()) {
            Some(w) => single_candidate(w) is None,
            None => true,
        }),
        lookup(hs, xci_name()) == Some(v),
        single_candidate(v) == Some(ip),
    ensures
        spec_resolve(hs, fallback) == ip,
{
}

/// A `forwarded` segment that yields no candidate is passed over: the scan
/// of the whole value equals the scan of what follows the segment.
pub proof fn lemma_forwarded_scan_skips_failed_segment(v: Seq<u8>)
    requires
        forwarded_candidate(take_until(v, 59)) is None,
        first_at(v, 59) < v.len(),
    ensures
        forwarded_scan(v) == forwarded_scan(v.skip(first_at(v, 59) + 1)),
{
}

/// A first `forwarded` segment whose candidate parses decides the scan;
/// later segments are not consulted.
pub proof fn lemma_forwarded_scan_stops_at_success(v: Seq<u8>, ip: IpAddress)
    requires
        forwarded_candidate(take_until(v, 59)) == Some(ip),
    ensures
        forwarded_scan(v) == Some(ip),
{
}

/// When the three `x-` headers are absent or yield no candidate, the first
/// parseable `for=` segment of `forwarded` decides the result.
pub proof fn lemma_forwarded_wins(
    hs: Seq<(Seq<u8>, Seq<u8>)>,
    fallback: IpAddress,
    v: Seq<u8>,
    ip: IpAddress,
)
    requires
        (match lookup(hs, xff_name()) {
            Some(w) => xff_candidate(w) is None,
            None => true,
        }),
        (match lookup(hs, xri_name()) {
            Some(w) => single_candidate(w) is None,
            None => true,
        }),
        (match lookup(hs, xci_name()) {
            Some(w) => single_candidate(w) is None,
            None => true,
        }),
        lookup(hs, fwd_name()) == Some(v),
        forwarded_scan(v) == Some(ip),
    ensures
        spec_resolve(hs, fallback) == ip,
{
}

} // verus!
