//! The two window scorers, with scores kept as exact fractions.
use vstd::prelude::*;
use crate::count::{
    base_count, bigram_count, count_base, count_bigram, lemma_base_count_bound,
    lemma_bigram_count_bound,
};

verus! {

/// Byte of the base `C`.
pub const BASE_C: u8 = 67;

/// Byte of the base `G`.
pub const BASE_G: u8 = 71;

/// The scoring function applied to each window, fixed for a whole run.
#[derive(Clone, Copy, Debug, PartialEq, Eq, Structural)]
pub enum ScoreKind {
    /// Fraction of bases that are `C` or `G`.
    CgContent,
    /// Fraction of adjacent base pairs that are `C` followed by `G`.
    CpgFrequency,
}

/// A score as the fraction `hits / total`; `total` is never zero.
#[derive(Clone, Copy, Debug, PartialEq, Eq, Structural)]
pub struct Score {
    pub hits: u64,
    pub total: u64,
}

/// The bases counted by the CG-content scorer.
pub open spec fn cg_bases() -> Seq<u8> {
    seq![BASE_C, BASE_G]
}

/// Numerator of the score of window `w`.
///
/// A window too short for its scorer (empty for CG content, under two bases
/// for CpG frequency) has no pair or base to divide by and scores zero, as
/// the fraction `0 / 1`.
pub open spec fn score_hits(kind: ScoreKind, w: Seq<u8>) -> nat {
    match kind {
        ScoreKind::CgContent => if w.len() == 0 { 0 } else { base_count(w, cg_bases()) },
        ScoreKind::CpgFrequency => if w.len() < 2 { 0 } else { bigram_count(w, BASE_C, BASE_G) },
    }
}

/// Denominator of the score of window `w`: its bases for CG content, its
/// adjacent pairs for CpG frequency, and 1 for a window too short to score.
pub open spec fn score_total(kind: ScoreKind, w: Seq<u8>) -> nat {
    match kind {
        ScoreKind::CgContent => if w.len() == 0 { 1 } else { w.len() },
        ScoreKind::CpgFrequency => if w.len() < 2 { 1 } else { (w.len() - 1) as nat },
    }
}

impl Score {
    /// The score is the fraction `hits / total` of `kind` on window `w`.
    pub open spec fn is_score_of(self, kind: ScoreKind, w: Seq<u8>) -> bool {
        self.hits == score_hits(kind, w) && self.total == score_total(kind, w)
    }
}

/// A score is a fraction in `[0, 1]` with a positive denominator.
pub proof fn lemma_score_in_unit_range(kind: ScoreKind, w: Seq<u8>)
    ensures
        0 < score_total(kind, w),
        score_hits(kind, w) <= score_total(kind, w),
{
    lemma_base_count_bound(w, cg_bases());
    lemma_bigram_count_bound(w, BASE_C, BASE_G);
}

/// Scores one window with the scorer `kind`.
pub fn score_window(kind: ScoreKind, w: &[u8]) -> (r: Score)
    ensures
        r.is_score_of(kind, w@),
        0 < r.total,
        r.hits <= r.total,
{
    proof {
        lemma_score_in_unit_range(kind, w@);
    }
    match kind {
        ScoreKind::CgContent => {
            if w.len() == 0 {
                Score { hits: 0, total: 1 }
            } else {
                let bases: [u8; 2] = [BASE_C, BASE_G];
                proof {
                    assert(bases@ =~= cg_bases());
                }
                let hits = count_base(w, &bases);
                Score { hits, total: w.len() as u64 }
            }
        },
        ScoreKind::CpgFrequency => {
            if w.len() < 2 {
                Score { hits: 0, total: 1 }
            } else {
                let pair: [u8; 2] = [BASE_C, BASE_G];
                let hits = count_bigram(w, &pair);
                Score { hits, total: (w.len() - 1) as u64 }
            }
        },
    }
}

} // verus!
