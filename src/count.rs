//! Counting bases and adjacent base pairs in a byte sequence.
use vstd::prelude::*;

verus! {

/// Number of positions of `s` that hold one of the bytes in `bases`.
pub open spec fn base_count(s: Seq<u8>, bases: Seq<u8>) -> nat
    decreases s.len(),
{
    if s.len() == 0 {
        0
    } else {
        base_count(s.drop_last(), bases) + if bases.contains(s.last()) { 1nat } else { 0nat }
    }
}

/// Number of positions `i` of `s` with `s[i] == a` and `s[i + 1] == b`.
pub open spec fn bigram_count(s: Seq<u8>, a: u8, b: u8) -> nat
    decreases s.len(),
{
    if s.len() < 2 {
        0
    } else {
        bigram_count(s.drop_last(), a, b) + if s[s.len() - 2] == a && s.last() == b {
            1nat
        } else {
            0nat
        }
    }
}

/// At most one position in `s` is counted per byte.
pub proof fn lemma_base_count_bound(s: Seq<u8>, bases: Seq<u8>)
    ensures
        base_count(s, bases) <= s.len(),
    decreases s.len(),
{
    if s.len() > 0 {
        lemma_base_count_bound(s.drop_last(), bases);
    }
}

/// At most one pair is counted per adjacent pair of `s`.
pub proof fn lemma_bigram_count_bound(s: Seq<u8>, a: u8, b: u8)
    ensures
        s.len() >= 1 ==> bigram_count(s, a, b) <= s.len() - 1,
        s.len() < 2 ==> bigram_count(s, a, b) == 0,
    decreases s.len(),
{
    if s.len() >= 2 {
        lemma_bigram_count_bound(s.drop_last(), a, b);
    }
}

fn contains_byte(bases: &[u8], b: u8) -> (r: bool)
    ensures
        r == bases@.contains(b),
{
    let mut i: usize = 0;
    while i < bases.len()
        invariant
            i <= bases@.len(),
            forall|j: int| 0 <= j < i ==> bases@[j] != b,
        decreases bases@.len() - i,
    {
        if bases[i] == b {
            return true;
        }
        i = i + 1;
    }
    false
}

/// Counts the bytes of `seq` that are one of `bases`.
pub fn count_base(seq: &[u8], bases: &[u8]) -> (r: u64)
    ensures
        r == base_count(seq@, bases@),
{
    let mut n: usize = 0;
    let mut i: usize = 0;
    while i < seq.len()
        invariant
            i <= seq@.len(),
            n == base_count(seq@.subrange(0, i as int), bases@),
        decreases seq@.len() - i,
    {
        proof {
            assert(seq@.subrange(0, i + 1).drop_last() =~= seq@.subrange(0, i as int));
            lemma_base_count_bound(seq@.subrange(0, i as int), bases@);
        }
        if contains_byte(bases, seq[i]) {
            n = n + 1;
        }
        i = i + 1;
    }
    proof {
        assert(seq@.subrange(0, seq@.len() as int) =~= seq@);
    }
    n as u64
}

/// Counts the positions of `seq` where `bigram[0]` is directly followed by `bigram[1]`.
pub fn count_bigram(seq: &[u8], bigram: &[u8; 2]) -> (r: u64)
    ensures
        r == bigram_count(seq@, bigram@[0], bigram@[1]),
{
    let a = bigram[0];
    let b = bigram[1];
    let mut n: usize = 0;
    let mut i: usize = 1;
    if seq.len() < 2 {
        return 0;
    }
    while i < seq.len()
        invariant
            1 <= i <= seq@.len(),
            a == bigram@[0],
            b == bigram@[1],
            n == bigram_count(seq@.subrange(0, i as int), a, b),
        decreases seq@.len() - i,
    {
        proof {
            assert(seq@.subrange(0, i + 1).drop_last() =~= seq@.subrange(0, i as int));
            lemma_bigram_count_bound(seq@.subrange(0, i as int), a, b);
        }
        if seq[i - 1] == a && seq[i] == b {
            n = n + 1;
        }
        i = i + 1;
    }
    proof {
        assert(seq@.subrange(0, seq@.len() as int) =~= seq@);
    }
    n as u64
}

} // verus!
