//! Small byte-string helpers shared by the parser, the tree and the router.
use vstd::prelude::*;

verus! {

pub const SLASH: u8 = 47;
pub const COLON: u8 = 58;
pub const PLUS: u8 = 43;
pub const STAR: u8 = 42;
pub const QUESTION: u8 = 63;
pub const BACKSLASH: u8 = 92;
pub const DASH: u8 = 45;
pub const DOT: u8 = 46;
pub const TILDE: u8 = 126;

/// The decimal digits of `n`, most significant first, as ASCII bytes.
pub open spec fn decimal(n: nat) -> Seq<u8>
    decreases n,
{
    if n < 10 {
        seq![(48 + n) as u8]
    } else {
        decimal(n / 10).push((48 + n % 10) as u8)
    }
}

/// A copy of `s[start..end]`.
pub fn copy_range(s: &[u8], start: usize, end: usize) -> (v: Vec<u8>)
    requires
        start <= end <= s@.len(),
    ensures
        v@ == s@.subrange(start as int, end as int),
{
    let mut v: Vec<u8> = Vec::new();
    let mut i = start;
    while i < end
        invariant
            start <= i <= end <= s@.len(),
            v@ == s@.subrange(start as int, i as int),
        decreases end - i,
    {
        v.push(s[i]);
        i = i + 1;
    }
    v
}

/// Appends all of `src` to `dst`.
pub fn append_bytes(dst: &mut Vec<u8>, src: &[u8])
    ensures
        final(dst)@ == old(dst)@ + src@,
{
    let mut i: usize = 0;
    let ghost start = dst@;
    while i < src.len()
        invariant
            i <= src@.len(),
            dst@ == start + src@.subrange(0, i as int),
        decreases src.len() - i,
    {
        dst.push(src[i]);
        i = i + 1;
        assert(src@.subrange(0, i as int) == src@.subrange(0, i - 1) + seq![src@[i - 1]]);
    }
    assert(src@.subrange(0, src@.len() as int) == src@);
}

/// The decimal digits of `n`.
pub fn usize_to_decimal(n: usize) -> (v: Vec<u8>)
    ensures
        v@ == decimal(n as nat),
{
    // Digits are produced least significant first, then reversed.
    let mut rev: Vec<u8> = Vec::new();
    let mut m = n;
    let ghost mut taken: nat = 0;
    // rev holds the digits of n % 10^k, least significant first; m == n / 10^k
    while m >= 10
        invariant
            decimal(n as nat) == decimal(m as nat) + rev@.reverse(),
        decreases m,
    {
        let d = (m % 10) as u8;
        let ghost mm = m as nat;
        rev.push(48 + d);
        m = m / 10;
        proof {
            assert(decimal(mm) == decimal(mm / 10).push((48 + mm % 10) as u8));
            let r0 = rev@.drop_last();
            assert(rev@.reverse() == seq![(48 + d) as u8] + r0.reverse()) by {
                assert(rev@ == r0.push((48 + d) as u8));
                lemma_reverse_push(r0, (48 + d) as u8);
            }
            assert(decimal(mm / 10).push((48 + mm % 10) as u8) + r0.reverse()
                == decimal(mm / 10) + (seq![(48 + d) as u8] + r0.reverse()));
        }
    }
    let mut v: Vec<u8> = Vec::new();
    v.push(48 + (m as u8));
    let mut j = rev.len();
    while j > 0
        invariant
            j <= rev@.len(),
            v@ == decimal(m as nat) + rev@.subrange(j as int, rev@.len() as int).reverse(),
            decimal(n as nat) == decimal(m as nat) + rev@.reverse(),
        decreases j,
    {
        j = j - 1;
        let ghost before = v@;
        v.push(rev[j]);
        proof {
            let tail = rev@.subrange(j + 1, rev@.len() as int);
            assert(rev@.subrange(j as int, rev@.len() as int) == seq![rev@[j as int]] + tail);
            lemma_reverse_prepend(rev@[j as int], tail);
            assert(v@ == before.push(rev@[j as int]));
        }
    }
    assert(rev@.subrange(0, rev@.len() as int) == rev@);
    v
}

proof fn lemma_reverse_push(s: Seq<u8>, x: u8)
    ensures
        s.push(x).reverse() == seq![x] + s.reverse(),
{
    assert(s.push(x).reverse() =~= seq![x] + s.reverse());
}

proof fn lemma_reverse_prepend(x: u8, s: Seq<u8>)
    ensures
        (seq![x] + s).reverse() == s.reverse().push(x),
{
    assert((seq![x] + s).reverse() =~= s.reverse().push(x));
}

} // verus!
