//! Byte-string helpers used by the resolver: whitespace trimming, finding a
//! separator, and copying a subrange. Header values reach the resolver as raw
//! bytes; all specifications are stated over `Seq<u8>`.

use vstd::prelude::*;

verus! {

/// Whitespace for header-value trimming: space and horizontal tab, the only
/// whitespace bytes that can appear in a well-formed header value.
pub open spec fn is_space(b: u8) -> bool {
    b == 32 || b == 9
}

/// The sequence with leading whitespace removed.
pub open spec fn trim_start(s: Seq<u8>) -> Seq<u8>
    decreases s.len(),
{
    if s.len() > 0 && is_space(s[0]) {
        trim_start(s.drop_first())
    } else {
        s
    }
}

/// The sequence with trailing whitespace removed.
pub open spec fn trim_end(s: Seq<u8>) -> Seq<u8>
    decreases s.len(),
{
    if s.len() > 0 && is_space(s.last()) {
        trim_end(s.drop_last())
    } else {
        s
    }
}

/// The sequence with surrounding whitespace removed.
pub open spec fn trim(s: Seq<u8>) -> Seq<u8> {
    trim_end(trim_start(s))
}

/// Index of the first occurrence of `sep`, or `s.len()` if absent.
pub open spec fn first_at(s: Seq<u8>, sep: u8) -> int
    decreases s.len(),
{
    if s.len() == 0 {
        0
    } else if s[0] == sep {
        0
    } else {
        1 + first_at(s.drop_first(), sep)
    }
}

/// The prefix of `s` before the first occurrence of `sep` (all of `s` if
/// `sep` does not occur).
pub open spec fn take_until(s: Seq<u8>, sep: u8) -> Seq<u8> {
    s.take(first_at(s, sep))
}

/// `first_at` points at the first occurrence of the separator: everything
/// before it differs from `sep`, and it is `s.len()` exactly when `sep` is
/// absent.
pub proof fn lemma_first_at(s: Seq<u8>, sep: u8)
    ensures
        0 <= first_at(s, sep) <= s.len(),
        first_at(s, sep) < s.len() ==> s[first_at(s, sep)] == sep,
        forall|j: int| 0 <= j < first_at(s, sep) ==> s[j] != sep,
    decreases s.len(),
{
    if s.len() == 0 {
    } else if s[0] == sep {
    } else {
        lemma_first_at(s.drop_first(), sep);
        assert forall|j: int| 0 <= j < first_at(s, sep) implies s[j] != sep by {
            if j > 0 {
                assert(s.drop_first()[j - 1] == s[j]);
            }
        }
    }
}

/// Leading whitespace can be dropped in one step.
pub proof fn lemma_trim_start_skip(s: Seq<u8>, k: int)
    requires
        0 <= k <= s.len(),
        forall|j: int| 0 <= j < k ==> is_space(s[j]),
    ensures
        trim_start(s) == trim_start(s.skip(k)),
    decreases k,
{
    if k == 0 {
        assert(s.skip(0) =~= s);
    } else {
        assert(is_space(s[0]));
        lemma_trim_start_skip(s.drop_first(), k - 1);
        assert(s.drop_first().skip(k - 1) =~= s.skip(k));
    }
}

/// Trailing whitespace can be dropped in one step.
pub proof fn lemma_trim_end_take(s: Seq<u8>, k: int)
    requires
        0 <= k <= s.len(),
        forall|j: int| k <= j < s.len() ==> is_space(s[j]),
    ensures
        trim_end(s) == trim_end(s.take(k)),
    decreases s.len() - k,
{
    if k == s.len() {
        assert(s.take(k) =~= s);
    } else {
        assert(is_space(s.last()));
        lemma_trim_end_take(s.drop_last(), k);
        assert(s.drop_last() =~= s.take(s.len() - 1));
        assert(s.drop_last().take(k) =~= s.take(k));
    }
}

/// Copies `s[lo..hi]` into a fresh vector.
pub fn subvec(s: &Vec<u8>, lo: usize, hi: usize) -> (r: Vec<u8>)
    requires
        lo <= hi <= s.len(),
    ensures
        r@ == s@.subrange(lo as int, hi as int),
{
    let mut r: Vec<u8> = Vec::new();
    let mut i: usize = lo;
    while i < hi
        invariant
            lo <= i <= hi <= s.len(),
            r@ == s@.subrange(lo as int, i as int),
        decreases hi - i,
    {
        r.push(s[i]);
        assert(s@.subrange(lo as int, i + 1 as int) =~= s@.subrange(lo as int, i as int).push(
            s@[i as int],
        ));
        i = i + 1;
    }
    r
}

/// Finds the first occurrence of `sep` in `s`, returning `s.len()` if absent.
pub fn find_byte(s: &Vec<u8>, sep: u8) -> (r: usize)
    ensures
        r == first_at(s@, sep),
        r <= s.len(),
{
    let mut i: usize = 0;
    while i < s.len()
        invariant
            0 <= i <= s.len(),
            forall|j: int| 0 <= j < i ==> s@[j] != sep,
        decreases s.len() - i,
    {
        if s[i] == sep {
            proof {
                lemma_first_at(s@, sep);
                if first_at(s@, sep) < i {
                    assert(s@[first_at(s@, sep)] != sep);
                }
            }
            return i;
        }
        i = i + 1;
    }
    proof {
        lemma_first_at(s@, sep);
        if first_at(s@, sep) < s@.len() {
            assert(s@[first_at(s@, sep)] != sep);
        }
    }
    i
}

/// Removes surrounding whitespace (space and tab), returning a fresh vector.
pub fn trim_bytes(s: &Vec<u8>) -> (r: Vec<u8>)
    ensures
        r@ == trim(s@),
{
    let mut lo: usize = 0;
    while lo < s.len() && (s[lo] == 32 || s[lo] == 9)
        invariant
            0 <= lo <= s.len(),
            forall|j: int| 0 <= j < lo ==> is_space(s@[j]),
        decreases s.len() - lo,
    {
        lo = lo + 1;
    }
    proof {
        lemma_trim_start_skip(s@, lo as int);
        assert(trim_start(s@.skip(lo as int)) == s@.skip(lo as int));
    }
    if lo == s.len() {
        let r: Vec<u8> = Vec::new();
        assert(s@.skip(lo as int) =~= Seq::<u8>::empty());
        assert(r@ =~= trim(s@));
        return r;
    }
    let mut hi: usize = s.len();
    while hi > lo && (s[hi - 1] == 32 || s[hi - 1] == 9)
        invariant
            lo <= hi <= s.len(),
            forall|j: int| hi <= j < s.len() ==> is_space(s@[j]),
        decreases hi,
    {
        hi = hi - 1;
    }
    proof {
        let t = s@.skip(lo as int);
        lemma_trim_end_take(t, hi - lo as int);
        assert(t.take(hi - lo as int) =~= s@.subrange(lo as int, hi as int));
        if hi > lo {
            assert(t.take(hi - lo as int).last() == s@[hi - 1]);
            assert(!is_space(t.take(hi - lo as int).last()));
        } else {
            assert(t.take(hi - lo as int) =~= Seq::<u8>::empty());
        }
        assert(trim_end(t.take(hi - lo as int)) == t.take(hi - lo as int));
    }
    subvec(s, lo, hi)
}

} // verus!
